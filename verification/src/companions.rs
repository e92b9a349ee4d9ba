//! Historical companions of one file: for every other path changed by the
//! considered commits, in how many of them it changed (support) out of all
//! of them (opportunities), the first commits where it did (examples) and
//! the first where it did not (counterexamples), strongest first.
use vstd::prelude::*;

use crate::history::{
    classify_commits, commits_view, considered_commits, excluded_commits, excluded_views,
    CommitSummary, CommitView, ExcludedCommit, GeneratedMarkerEvidence, HistoricalCommit,
    HistoryOptions, SummaryView,
};
use crate::text::{chars_eq, chars_less, chars_of, seq_less};

verus! {

pub const EXAMPLE_LIMIT: usize = 3;

/// One path that changed together with the anchor.
#[derive(Debug, Clone, Eq, PartialEq)]
pub struct HistoricalCompanion {
    pub path: String,
    pub support: usize,
    pub opportunities: usize,
    pub examples: Vec<CommitSummary>,
    pub counterexamples: Vec<CommitSummary>,
    pub generated_marker: Option<GeneratedMarkerEvidence>,
}

pub struct CompanionView {
    pub path: Seq<char>,
    pub support: nat,
    pub opportunities: nat,
    pub examples: Seq<SummaryView>,
    pub counterexamples: Seq<SummaryView>,
    pub marked: bool,
}

pub open spec fn summaries_view(v: Seq<CommitSummary>) -> Seq<SummaryView> {
    v.map_values(|s: CommitSummary| s.summary_view())
}

impl HistoricalCompanion {
    pub open spec fn companion_view(&self) -> CompanionView {
        CompanionView {
            path: self.path@,
            support: self.support as nat,
            opportunities: self.opportunities as nat,
            examples: summaries_view(self.examples@),
            counterexamples: summaries_view(self.counterexamples@),
            marked: self.generated_marker is Some,
        }
    }
}

pub open spec fn companions_view(v: Seq<HistoricalCompanion>) -> Seq<CompanionView> {
    v.map_values(|c: HistoricalCompanion| c.companion_view())
}

/// The paths of one commit other than the anchor, each with the commit's
/// index.
pub open spec fn commit_row(i: int, paths: Seq<Seq<char>>, anchor: Seq<char>) -> Seq<(int, Seq<char>)>
    decreases paths.len(),
{
    if paths.len() == 0 {
        Seq::empty()
    } else {
        let before = commit_row(i, paths.drop_last(), anchor);
        if paths.last() == anchor {
            before
        } else {
            before.push((i, paths.last()))
        }
    }
}

/// Every (commit index, path) pair of the commits, anchor excluded, in
/// commit order.
pub open spec fn commit_pairs(cs: Seq<CommitView>, anchor: Seq<char>) -> Seq<(int, Seq<char>)>
    decreases cs.len(),
{
    if cs.len() == 0 {
        Seq::empty()
    } else {
        commit_pairs(cs.drop_last(), anchor) + commit_row(
            cs.len() - 1,
            cs.last().paths,
            anchor,
        )
    }
}

/// The commit indices at which `p` occurs, in order.
pub open spec fn indices_for(pairs: Seq<(int, Seq<char>)>, p: Seq<char>) -> Seq<int>
    decreases pairs.len(),
{
    if pairs.len() == 0 {
        Seq::empty()
    } else {
        let before = indices_for(pairs.drop_last(), p);
        if pairs.last().1 == p {
            before.push(pairs.last().0)
        } else {
            before
        }
    }
}

/// The commits `0..n`, in order, at which `p` does not occur.
pub open spec fn absent_indices(n: int, idx: Seq<int>) -> Seq<int>
    decreases n,
{
    if n <= 0 {
        Seq::empty()
    } else {
        let before = absent_indices(n - 1, idx);
        if idx.contains(n - 1) {
            before
        } else {
            before.push(n - 1)
        }
    }
}

pub open spec fn first_few(s: Seq<int>) -> Seq<int> {
    if s.len() <= EXAMPLE_LIMIT {
        s
    } else {
        s.take(EXAMPLE_LIMIT as int)
    }
}

pub open spec fn summaries_at(cs: Seq<CommitView>, idx: Seq<int>) -> Seq<SummaryView> {
    idx.map_values(|i: int| cs[i].summary)
}

/// What the history says of the companion `p`.
pub open spec fn companion_of(cs: Seq<CommitView>, anchor: Seq<char>, p: Seq<char>) -> CompanionView {
    let idx = indices_for(commit_pairs(cs, anchor), p);
    CompanionView {
        path: p,
        support: idx.len(),
        opportunities: cs.len(),
        examples: summaries_at(cs, first_few(idx)),
        counterexamples: summaries_at(cs, first_few(absent_indices(cs.len() as int, idx))),
        marked: false,
    }
}

/// A path other than the anchor that some considered commit changed.
pub open spec fn is_companion_path(cs: Seq<CommitView>, anchor: Seq<char>, p: Seq<char>) -> bool {
    exists|k: int| 0 <= k < commit_pairs(cs, anchor).len() && (#[trigger] commit_pairs(cs, anchor)[k]).1 == p
}

/// Higher support first, then the smaller path.
pub open spec fn comp_before(a: CompanionView, b: CompanionView) -> bool {
    a.support > b.support || (a.support == b.support && seq_less(a.path, b.path))
}

/// Every companion path once, described by the history, strongest first.
pub open spec fn companion_order(cs: Seq<CommitView>, anchor: Seq<char>, comps: Seq<CompanionView>) -> bool {
    &&& forall|k: int|
        0 <= k < comps.len() ==> is_companion_path(cs, anchor, (#[trigger] comps[k]).path) && comps[k]
            == companion_of(cs, anchor, comps[k].path)
    &&& forall|p: Seq<char>|
        #[trigger] is_companion_path(cs, anchor, p) ==> exists|k: int|
            0 <= k < comps.len() && comps[k].path == p
    &&& forall|a: int, b: int| 0 <= a < b < comps.len() ==> comp_before(#[trigger] comps[a], #[trigger] comps[b])
}

pub open spec fn ints(v: Seq<usize>) -> Seq<int> {
    v.map_values(|x: usize| x as int)
}

proof fn lemma_indices_nonempty(pairs: Seq<(int, Seq<char>)>, p: Seq<char>)
    requires
        indices_for(pairs, p).len() > 0,
    ensures
        exists|q: int| 0 <= q < pairs.len() && (#[trigger] pairs[q]).1 == p,
    decreases pairs.len(),
{
    if pairs.last().1 != p {
        lemma_indices_nonempty(pairs.drop_last(), p);
        let q = choose|q: int| 0 <= q < pairs.drop_last().len() && (#[trigger] pairs.drop_last()[q]).1 == p;
        assert(pairs[q] == pairs.drop_last()[q]);
    } else {
        assert(pairs[pairs.len() - 1].1 == p);
    }
}

proof fn lemma_commit_row_push(i: int, paths: Seq<Seq<char>>, j: int, anchor: Seq<char>)
    requires
        0 <= j < paths.len(),
    ensures
        commit_row(i, paths.take(j + 1), anchor) == if paths[j] == anchor {
            commit_row(i, paths.take(j), anchor)
        } else {
            commit_row(i, paths.take(j), anchor).push((i, paths[j]))
        },
{
    assert(paths.take(j + 1).drop_last() =~= paths.take(j));
}

proof fn lemma_commit_pairs_push(cs: Seq<CommitView>, i: int, anchor: Seq<char>)
    requires
        0 <= i < cs.len(),
    ensures
        commit_pairs(cs.take(i + 1), anchor) == commit_pairs(cs.take(i), anchor) + commit_row(
            i,
            cs[i].paths,
            anchor,
        ),
{
    assert(cs.take(i + 1).drop_last() =~= cs.take(i));
}

fn copy_usizes(v: &Vec<usize>) -> (r: Vec<usize>)
    ensures
        r@ == v@,
{
    let mut r: Vec<usize> = Vec::new();
    let mut i: usize = 0;
    while i < v.len()
        invariant
            i <= v@.len(),
            r@ == v@.take(i as int),
        decreases v.len() - i,
    {
        r.push(v[i]);
        i = i + 1;
        assert(r@ =~= v@.take(i as int));
    }
    assert(v@.take(i as int) =~= v@);
    r
}

spec fn entries_ok(
    done: Seq<(int, Seq<char>)>,
    paths: Seq<Vec<char>>,
    idxs: Seq<Vec<usize>>,
    n: int,
) -> bool {
    &&& paths.len() == idxs.len()
    &&& forall|a: int, b: int| 0 <= a < b < paths.len() ==> (#[trigger] paths[a])@ != (#[trigger] paths[b])@
    &&& forall|k: int|
        0 <= k < paths.len() ==> ints((#[trigger] idxs[k])@) == indices_for(done, paths[k]@)
            && (exists|q: int| 0 <= q < done.len() && (#[trigger] done[q]).1 == paths[k]@)
    &&& forall|k: int, t: int|
        0 <= k < idxs.len() && 0 <= t < idxs[k]@.len() ==> (#[trigger] idxs[k]@[t]) < n
    &&& forall|q: int|
        0 <= q < done.len() ==> crate::text::seqs_view(paths).contains((#[trigger] done[q]).1)
}

/// Records the pair `(i, p)`: a new path gets its own entry, a known one
/// one more index.
fn record_pair(
    paths: &mut Vec<Vec<char>>,
    idxs: &mut Vec<Vec<usize>>,
    i: usize,
    p: &[char],
    n: usize,
    Ghost(done): Ghost<Seq<(int, Seq<char>)>>,
)
    requires
        entries_ok(done, old(paths)@, old(idxs)@, n as int),
        i < n,
    ensures
        entries_ok(done.push((i as int, p@)), final(paths)@, final(idxs)@, n as int),
{
    let ghost d1 = done.push((i as int, p@));
    let mut k: usize = 0;
    let mut found = false;
    while k < paths.len() && !found
        invariant
            k <= paths@.len(),
            paths@ == old(paths)@,
            idxs@ == old(idxs)@,
            forall|j: int| 0 <= j < k ==> (#[trigger] paths@[j])@ != p@,
            found ==> k < paths@.len() && paths@[k as int]@ == p@,
        decreases paths.len() - k + if found {
            0int
        } else {
            1int
        },
    {
        if chars_eq(paths[k].as_slice(), p) {
            found = true;
        } else {
            k = k + 1;
        }
    }
    assert(d1[done.len() as int] == (i as int, p@));
    if found {
        let mut v = copy_usizes(&idxs[k]);
        v.push(i);
        let ghost old_idxs = idxs@;
        idxs.set(k, v);
        proof {
            assert forall|m: int|
                0 <= m < paths@.len() implies ints((#[trigger] idxs@[m])@) == indices_for(d1, paths@[m]@)
                && (exists|q: int| 0 <= q < d1.len() && (#[trigger] d1[q]).1 == paths@[m]@) by {
                assert(d1.drop_last() =~= done);
                if m == k {
                    assert(ints(idxs@[m]@) =~= ints(old_idxs[m]@).push(i as int));
                    assert(d1[d1.len() - 1].1 == paths@[m]@);
                } else {
                    assert(paths@[m]@ != p@) by {
                        if m < k {
                            assert(paths@[m]@ != paths@[k as int]@);
                        } else {
                            assert(paths@[k as int]@ != paths@[m]@);
                        }
                    }
                    assert(ints(old_idxs[m]@) == indices_for(done, paths@[m]@));
                    assert(idxs@[m] == old_idxs[m]);
                    let q = choose|q: int| 0 <= q < done.len() && (#[trigger] done[q]).1 == paths@[m]@;
                    assert(d1[q] == done[q]);
                }
            }
            assert forall|m: int, t: int|
                0 <= m < idxs@.len() && 0 <= t < idxs@[m]@.len() implies (#[trigger] idxs@[m]@[t]) < n by {
                if m != k {
                    assert(idxs@[m] == old_idxs[m]);
                }
            }
            assert forall|q: int| 0 <= q < d1.len() implies crate::text::seqs_view(paths@).contains(
                (#[trigger] d1[q]).1,
            ) by {
                if q == done.len() {
                    assert(crate::text::seqs_view(paths@)[k as int] == p@);
                } else {
                    assert(d1[q] == done[q]);
                }
            }
        }
    } else {
        proof {
            if indices_for(done, p@).len() > 0 {
                lemma_indices_nonempty(done, p@);
                let q = choose|q: int| 0 <= q < done.len() && (#[trigger] done[q]).1 == p@;
                assert(crate::text::seqs_view(paths@).contains(done[q].1));
                let m = choose|m: int| 0 <= m < paths@.len() && crate::text::seqs_view(paths@)[m] == done[q].1;
                assert(paths@[m]@ == p@);
            }
        }
        let ghost old_paths = paths@;
        let ghost old_idxs = idxs@;
        let copy = crate::text::slice_chars(p, 0, p.len());
        assert(copy@ =~= p@);
        paths.push(copy);
        idxs.push(vec![i]);
        proof {
            let last = old_paths.len() as int;
            assert(d1.drop_last() =~= done);
            assert forall|a: int, b: int| 0 <= a < b < paths@.len() implies (#[trigger] paths@[a])@
                != (#[trigger] paths@[b])@ by {
                if b == last {
                    assert(old_paths[a]@ != p@);
                } else {
                    assert(old_paths[a]@ != old_paths[b]@);
                }
            }
            assert forall|m: int|
                0 <= m < paths@.len() implies ints((#[trigger] idxs@[m])@) == indices_for(d1, paths@[m]@)
                && (exists|q: int| 0 <= q < d1.len() && (#[trigger] d1[q]).1 == paths@[m]@) by {
                if m == last {
                    assert(indices_for(done, p@) =~= Seq::<int>::empty());
                    assert(ints(idxs@[m]@) =~= seq![i as int]);
                    assert(d1[d1.len() - 1].1 == paths@[m]@);
                } else {
                    assert(paths@[m] == old_paths[m]);
                    assert(idxs@[m] == old_idxs[m]);
                    assert(ints(old_idxs[m]@) == indices_for(done, old_paths[m]@));
                    assert(old_paths[m]@ != p@);
                    let q = choose|q: int| 0 <= q < done.len() && (#[trigger] done[q]).1 == paths@[m]@;
                    assert(d1[q] == done[q]);
                }
            }
            assert forall|m: int, t: int|
                0 <= m < idxs@.len() && 0 <= t < idxs@[m]@.len() implies (#[trigger] idxs@[m]@[t]) < n by {
                if m != last {
                    assert(idxs@[m] == old_idxs[m]);
                }
            }
            assert forall|q: int| 0 <= q < d1.len() implies crate::text::seqs_view(paths@).contains(
                (#[trigger] d1[q]).1,
            ) by {
                if q == done.len() {
                    assert(crate::text::seqs_view(paths@)[last] == p@);
                } else {
                    assert(d1[q] == done[q]);
                    let m = choose|m: int| 0 <= m < old_paths.len() && crate::text::seqs_view(old_paths)[m] == done[q].1;
                    assert(crate::text::seqs_view(paths@)[m] == done[q].1);
                }
            }
        }
    }
}

/// The distinct companion paths with the commit indices of each.
fn collect_entries(anchor: &str, commits: &Vec<HistoricalCommit>) -> (r: (Vec<Vec<char>>, Vec<Vec<usize>>))
    ensures
        entries_ok(
            commit_pairs(commits_view(commits@), anchor@),
            r.0@,
            r.1@,
            commits@.len() as int,
        ),
{
    let ghost cs = commits_view(commits@);
    let n = commits.len();
    let ac = chars_of(anchor);
    let mut paths: Vec<Vec<char>> = Vec::new();
    let mut idxs: Vec<Vec<usize>> = Vec::new();
    let mut i: usize = 0;
    assert(cs.take(0) =~= Seq::<CommitView>::empty());
    while i < n
        invariant
            i <= n,
            n == commits@.len(),
            cs == commits_view(commits@),
            ac@ == anchor@,
            entries_ok(commit_pairs(cs.take(i as int), anchor@), paths@, idxs@, n as int),
        decreases n - i,
    {
        let c = &commits[i];
        assert(cs[i as int] == c.commit_view());
        let ghost base = commit_pairs(cs.take(i as int), anchor@);
        let ghost ps = cs[i as int].paths;
        let mut j: usize = 0;
        assert(ps.take(0) =~= Seq::<Seq<char>>::empty());
        assert(base + commit_row(i as int, ps.take(0), anchor@) =~= base);
        while j < c.paths.len()
            invariant
                i < n,
                n == commits@.len(),
                j <= c.paths@.len(),
                ps == crate::validate::strings_view(c.paths@),
                ac@ == anchor@,
                entries_ok(base + commit_row(i as int, ps.take(j as int), anchor@), paths@, idxs@, n as int),
            decreases c.paths.len() - j,
        {
            let pc = chars_of(c.paths[j].as_str());
            assert(ps[j as int] == pc@);
            proof {
                lemma_commit_row_push(i as int, ps, j as int, anchor@);
            }
            if !chars_eq(pc.as_slice(), ac.as_slice()) {
                let ghost done = base + commit_row(i as int, ps.take(j as int), anchor@);
                record_pair(&mut paths, &mut idxs, i, pc.as_slice(), n, Ghost(done));
                assert(done.push((i as int, pc@)) =~= base + commit_row(
                    i as int,
                    ps.take(j + 1),
                    anchor@,
                ));
            } else {
                assert(base + commit_row(i as int, ps.take(j + 1), anchor@) =~= base + commit_row(
                    i as int,
                    ps.take(j as int),
                    anchor@,
                ));
            }
            j = j + 1;
        }
        proof {
            assert(ps.take(j as int) =~= ps);
            lemma_commit_pairs_push(cs, i as int, anchor@);
        }
        i = i + 1;
    }
    assert(cs.take(i as int) =~= cs);
    (paths, idxs)
}

fn contains_index(idx: &Vec<usize>, k: usize) -> (r: bool)
    ensures
        r == ints(idx@).contains(k as int),
{
    let mut t: usize = 0;
    while t < idx.len()
        invariant
            t <= idx@.len(),
            forall|u: int| 0 <= u < t ==> idx@[u] != k,
        decreases idx.len() - t,
    {
        if idx[t] == k {
            assert(ints(idx@)[t as int] == k as int);
            return true;
        }
        t = t + 1;
    }
    proof {
        if ints(idx@).contains(k as int) {
            let u = choose|u: int| 0 <= u < ints(idx@).len() && ints(idx@)[u] == k as int;
            assert(idx@[u] == k);
        }
    }
    false
}

/// The companion of one path from its commit indices.
fn companion_exec(
    commits: &Vec<HistoricalCommit>,
    path: &Vec<char>,
    idx: &Vec<usize>,
    Ghost(anchor): Ghost<Seq<char>>,
) -> (r: HistoricalCompanion)
    requires
        ints(idx@) == indices_for(commit_pairs(commits_view(commits@), anchor), path@),
        forall|t: int| 0 <= t < idx@.len() ==> (#[trigger] idx@[t]) < commits@.len(),
    ensures
        r.companion_view() == companion_of(commits_view(commits@), anchor, path@),
{
    let ghost cs = commits_view(commits@);
    let ghost iv = ints(idx@);
    let n = commits.len();
    let mut examples: Vec<CommitSummary> = Vec::new();
    let limit = if idx.len() < EXAMPLE_LIMIT {
        idx.len()
    } else {
        EXAMPLE_LIMIT
    };
    let mut t: usize = 0;
    while t < limit
        invariant
            t <= limit,
            limit <= idx@.len(),
            limit == if idx@.len() < EXAMPLE_LIMIT { idx@.len() } else { EXAMPLE_LIMIT as nat },
            iv == ints(idx@),
            cs == commits_view(commits@),
            forall|u: int| 0 <= u < idx@.len() ==> (#[trigger] idx@[u]) < commits@.len(),
            summaries_view(examples@) == summaries_at(cs, iv.take(t as int)),
        decreases limit - t,
    {
        let k = idx[t];
        let ghost before = summaries_view(examples@);
        let s = commits[k].summary.copy();
        assert(cs[k as int] == commits@[k as int].commit_view());
        examples.push(s);
        t = t + 1;
        assert(summaries_view(examples@) =~= before.push(commits@[k as int].summary.summary_view()));
        assert(summaries_at(cs, iv.take(t as int)) =~= summaries_at(cs, iv.take(t - 1)).push(
            cs[iv[t - 1]].summary,
        ));
    }
    assert(iv.take(t as int) =~= first_few(iv));
    let mut counter: Vec<CommitSummary> = Vec::new();
    let ghost mut absent: Seq<int> = Seq::empty();
    let mut k: usize = 0;
    while k < n
        invariant
            k <= n,
            n == commits@.len(),
            iv == ints(idx@),
            cs == commits_view(commits@),
            absent == absent_indices(k as int, iv),
            summaries_view(counter@) == summaries_at(cs, first_few(absent)),
            counter@.len() == if absent.len() < EXAMPLE_LIMIT { absent.len() } else { EXAMPLE_LIMIT as nat },
        decreases n - k,
    {
        let present = contains_index(idx, k);
        if !present {
            if counter.len() < EXAMPLE_LIMIT {
                let ghost before = summaries_view(counter@);
                let s = commits[k].summary.copy();
                assert(cs[k as int] == commits@[k as int].commit_view());
                counter.push(s);
                proof {
                    assert(first_few(absent) =~= absent);
                    assert(first_few(absent.push(k as int)) =~= absent.push(k as int));
                    assert(summaries_view(counter@) =~= before.push(cs[k as int].summary));
                    assert(summaries_at(cs, absent.push(k as int)) =~= summaries_at(cs, absent).push(
                        cs[k as int].summary,
                    ));
                }
            } else {
                proof {
                    assert(first_few(absent.push(k as int)) =~= first_few(absent));
                }
            }
            proof {
                absent = absent.push(k as int);
            }
        }
        k = k + 1;
    }
    HistoricalCompanion {
        path: crate::text::string_of(path.as_slice()),
        support: idx.len(),
        opportunities: n,
        examples,
        counterexamples: counter,
        generated_marker: None,
    }
}

proof fn lemma_comp_order(a: CompanionView, b: CompanionView, c: CompanionView)
    ensures
        a.path != b.path ==> comp_before(a, b) || comp_before(b, a),
        !(comp_before(a, b) && comp_before(b, a)),
        !comp_before(a, a),
        comp_before(a, b) && comp_before(b, c) ==> comp_before(a, c),
{
    crate::text::lemma_seq_less_total(a.path, b.path);
    crate::text::lemma_seq_less_irreflexive(a.path);
    if comp_before(a, b) && comp_before(b, c) && a.support == b.support && b.support == c.support {
        crate::text::lemma_seq_less_transitive(a.path, b.path, c.path);
    }
}

pub open spec fn comps_ordered(s: Seq<CompanionView>) -> bool {
    forall|a: int, b: int| 0 <= a < b < s.len() ==> comp_before(#[trigger] s[a], #[trigger] s[b])
}

fn insert_companion(v: &mut Vec<HistoricalCompanion>, c: HistoricalCompanion)
    requires
        comps_ordered(companions_view(old(v)@)),
        forall|k: int| 0 <= k < old(v)@.len() ==> (#[trigger] old(v)@[k]).path@ != c.path@,
    ensures
        comps_ordered(companions_view(final(v)@)),
        exists|i: int|
            0 <= i <= old(v)@.len() && companions_view(final(v)@) == companions_view(old(v)@).insert(
                i,
                c.companion_view(),
            ),
{
    let ghost s = companions_view(v@);
    let ghost cv = c.companion_view();
    let mut i: usize = 0;
    let mut stop = false;
    while i < v.len() && !stop
        invariant
            i <= v@.len(),
            s == companions_view(v@),
            cv == c.companion_view(),
            forall|k: int| 0 <= k < i ==> comp_before(#[trigger] s[k], cv),
            stop ==> i < v@.len() && !comp_before(s[i as int], cv),
        decreases v.len() - i + if stop {
            0int
        } else {
            1int
        },
    {
        let e = &v[i];
        let before = e.support > c.support || (e.support == c.support && chars_less(
            chars_of(e.path.as_str()).as_slice(),
            chars_of(c.path.as_str()).as_slice(),
        ));
        if !before {
            stop = true;
        } else {
            i = i + 1;
        }
    }
    proof {
        if i < s.len() {
            assert(s[i as int].path == v@[i as int].path@);
            lemma_comp_order(s[i as int], cv, cv);
        }
    }
    v.insert(i, c);
    let ghost t = companions_view(v@);
    assert(t =~= s.insert(i as int, cv));
    assert forall|a: int, b: int| 0 <= a < b < t.len() implies comp_before(#[trigger] t[a], #[trigger] t[b]) by {
        if b < i {
            assert(t[a] == s[a] && t[b] == s[b]);
        } else if b == i {
            assert(t[a] == s[a]);
        } else if a == i {
            assert(t[b] == s[b - 1]);
            if b - 1 > i {
                lemma_comp_order(cv, s[i as int], s[b - 1]);
            }
        } else if a < i {
            assert(t[a] == s[a] && t[b] == s[b - 1]);
        } else {
            assert(t[a] == s[a - 1] && t[b] == s[b - 1]);
        }
    }
}

/// The companions of `anchor` in the considered commits, strongest first.
#[verifier::spinoff_prover]
#[verifier::rlimit(60)]
pub fn build_companions(anchor: &str, commits: &Vec<HistoricalCommit>) -> (r: Vec<HistoricalCompanion>)
    ensures
        companion_order(commits_view(commits@), anchor@, companions_view(r@)),
{
    let ghost cs = commits_view(commits@);
    let ghost pairs = commit_pairs(cs, anchor@);
    let (paths, idxs) = collect_entries(anchor, commits);
    let mut out: Vec<HistoricalCompanion> = Vec::new();
    let mut m: usize = 0;
    while m < paths.len()
        invariant
            m <= paths@.len(),
            cs == commits_view(commits@),
            pairs == commit_pairs(cs, anchor@),
            entries_ok(pairs, paths@, idxs@, commits@.len() as int),
            comps_ordered(companions_view(out@)),
            forall|k: int|
                0 <= k < out@.len() ==> is_companion_path(cs, anchor@, (#[trigger] companions_view(out@)[k]).path)
                    && companions_view(out@)[k] == companion_of(cs, anchor@, companions_view(out@)[k].path)
                    && exists|q: int| 0 <= q < m && paths@[q]@ == companions_view(out@)[k].path,
            forall|q: int|
                0 <= q < m ==> exists|k: int|
                    0 <= k < out@.len() && companions_view(out@)[k].path == (#[trigger] paths@[q])@,
        decreases paths.len() - m,
    {
        assert(ints(idxs@[m as int]@) == indices_for(pairs, paths@[m as int]@));
        let c = companion_exec(commits, &paths[m], &idxs[m], Ghost(anchor@));
        let ghost before = companions_view(out@);
        let ghost pm = paths@[m as int]@;
        proof {
            assert forall|k: int| 0 <= k < out@.len() implies (#[trigger] out@[k]).path@ != c.path@ by {
                assert(before[k].path == out@[k].path@);
                let q = choose|q: int| 0 <= q < m && paths@[q]@ == before[k].path;
                assert(paths@[q]@ != paths@[m as int]@);
            }
            let q = choose|q: int| 0 <= q < pairs.len() && (#[trigger] pairs[q]).1 == pm;
            assert(is_companion_path(cs, anchor@, pm));
        }
        insert_companion(&mut out, c);
        proof {
            let cv = c.companion_view();
            let i = choose|i: int| 0 <= i <= before.len() && companions_view(out@) == before.insert(i, cv);
            let after = companions_view(out@);
            assert forall|k: int| 0 <= k < after.len() implies is_companion_path(cs, anchor@, (#[trigger] after[k]).path)
                && after[k] == companion_of(cs, anchor@, after[k].path)
                && exists|q: int| 0 <= q < m + 1 && paths@[q]@ == after[k].path by {
                if k < i {
                    assert(after[k] == before[k]);
                } else if k == i {
                    assert(after[k] == cv);
                    assert(paths@[m as int]@ == after[k].path);
                } else {
                    assert(after[k] == before[k - 1]);
                }
            }
            assert forall|q: int| 0 <= q < m + 1 implies exists|k: int|
                0 <= k < after.len() && after[k].path == (#[trigger] paths@[q])@ by {
                if q == m {
                    assert(after[i].path == pm);
                } else {
                    let k = choose|k: int| 0 <= k < before.len() && before[k].path == paths@[q]@;
                    if k < i {
                        assert(after[k] == before[k]);
                    } else {
                        assert(after[k + 1] == before[k]);
                    }
                }
            }
        }
        m = m + 1;
    }
    proof {
        let comps = companions_view(out@);
        assert forall|p: Seq<char>| #[trigger] is_companion_path(cs, anchor@, p) implies exists|k: int|
            0 <= k < comps.len() && comps[k].path == p by {
            let q = choose|q: int| 0 <= q < pairs.len() && (#[trigger] pairs[q]).1 == p;
            assert(crate::text::seqs_view(paths@).contains(pairs[q].1));
            let w = choose|w: int| 0 <= w < paths@.len() && crate::text::seqs_view(paths@)[w] == p;
            assert(paths@[w]@ == p);
        }
    }
    out
}

proof fn lemma_ordered_same_companions(a: Seq<CompanionView>, b: Seq<CompanionView>)
    requires
        comps_ordered(a),
        comps_ordered(b),
        forall|x: CompanionView| a.contains(x) <==> b.contains(x),
    ensures
        a == b,
    decreases a.len(),
{
    if a.len() == 0 {
        if b.len() > 0 {
            assert(b.contains(b[0]));
        }
        assert(a =~= b);
    } else {
        assert(a.contains(a[0]));
        assert(b.contains(b[0]));
        let p = choose|p: int| 0 <= p < b.len() && b[p] == a[0];
        let q = choose|q: int| 0 <= q < a.len() && a[q] == b[0];
        if a[0] != b[0] {
            assert(comp_before(b[0], b[p]));
            assert(comp_before(a[0], a[q]));
            lemma_comp_order(a[0], b[0], a[0]);
        }
        let a1 = a.drop_first();
        let b1 = b.drop_first();
        assert forall|x: CompanionView| a1.contains(x) <==> b1.contains(x) by {
            if a1.contains(x) {
                let i = choose|i: int| 0 <= i < a1.len() && a1[i] == x;
                assert(a[i + 1] == x);
                assert(a.contains(x));
                let j = choose|j: int| 0 <= j < b.len() && b[j] == x;
                if j == 0 {
                    assert(comp_before(a[0], a[i + 1]));
                    lemma_comp_order(x, x, x);
                }
                assert(b1[j - 1] == x);
            }
            if b1.contains(x) {
                let i = choose|i: int| 0 <= i < b1.len() && b1[i] == x;
                assert(b[i + 1] == x);
                assert(b.contains(x));
                let j = choose|j: int| 0 <= j < a.len() && a[j] == x;
                if j == 0 {
                    assert(comp_before(b[0], b[i + 1]));
                    lemma_comp_order(x, x, x);
                }
                assert(a1[j - 1] == x);
            }
        }
        lemma_ordered_same_companions(a1, b1);
        assert(a =~= seq![a[0]] + a1);
        assert(b =~= seq![b[0]] + b1);
    }
}

/// The companions of a file are determined by its history: two lists that
/// both hold every companion path once, described by the history and
/// strongest first, are the same list.
pub proof fn lemma_companion_order_unique(
    cs: Seq<CommitView>,
    anchor: Seq<char>,
    c1: Seq<CompanionView>,
    c2: Seq<CompanionView>,
)
    requires
        companion_order(cs, anchor, c1),
        companion_order(cs, anchor, c2),
    ensures
        c1 == c2,
{
    assert forall|x: CompanionView| c1.contains(x) implies c2.contains(x) by {
        let k = choose|k: int| 0 <= k < c1.len() && c1[k] == x;
        assert(is_companion_path(cs, anchor, c1[k].path));
        let k2 = choose|k2: int| 0 <= k2 < c2.len() && c2[k2].path == x.path;
        assert(c2[k2] == x);
    }
    assert forall|x: CompanionView| c2.contains(x) implies c1.contains(x) by {
        let k = choose|k: int| 0 <= k < c2.len() && c2[k] == x;
        assert(is_companion_path(cs, anchor, c2[k].path));
        let k1 = choose|k1: int| 0 <= k1 < c1.len() && c1[k1].path == x.path;
        assert(c1[k1] == x);
    }
    lemma_ordered_same_companions(c1, c2);
}

pub open spec fn history_request_error(anchor_is_absolute: bool, options: HistoryOptions) -> Option<
    Seq<char>,
> {
    if anchor_is_absolute {
        Some("history anchor must be repository-relative"@)
    } else if options.max_commits == 0 {
        Some("history max commit count must be greater than zero"@)
    } else if options.max_paths_per_commit == 0 {
        Some("history broad-commit threshold must be greater than zero"@)
    } else {
        None
    }
}

/// Refuses an absolute anchor and a zero limit, in that order.
pub fn check_history_request(anchor_is_absolute: bool, options: HistoryOptions) -> (r: Result<
    (),
    String,
>)
    ensures
        r is Ok <==> history_request_error(anchor_is_absolute, options) is None,
        r is Err ==> Some(r->Err_0@) == history_request_error(anchor_is_absolute, options),
{
    if anchor_is_absolute {
        return Err(crate::text::owned("history anchor must be repository-relative"));
    }
    if options.max_commits == 0 {
        return Err(crate::text::owned("history max commit count must be greater than zero"));
    }
    if options.max_paths_per_commit == 0 {
        return Err(crate::text::owned("history broad-commit threshold must be greater than zero"));
    }
    Ok(())
}

/// What the history of one anchor gives: how many commits were read, how
/// many the cohort kept, the ones it dropped and the companions.
#[derive(Debug)]
pub struct HistoryCohort {
    pub discovered_commits: usize,
    pub considered_commits: usize,
    pub excluded_commits: Vec<ExcludedCommit>,
    pub companions: Vec<HistoricalCompanion>,
}

/// Drops reverts and broad commits, then finds the companions of `anchor`
/// in the commits that remain.
pub fn history_cohort(anchor: &str, commits: &Vec<HistoricalCommit>, options: HistoryOptions) -> (r:
    HistoryCohort)
    ensures
        r.discovered_commits == commits@.len(),
        r.considered_commits == considered_commits(
            commits_view(commits@),
            options.max_paths_per_commit,
        ).len(),
        excluded_views(r.excluded_commits@) == excluded_commits(
            commits_view(commits@),
            options.max_paths_per_commit,
        ),
        companion_order(
            considered_commits(commits_view(commits@), options.max_paths_per_commit),
            anchor@,
            companions_view(r.companions@),
        ),
{
    let (considered, excluded) = classify_commits(commits, options.max_paths_per_commit);
    let companions = build_companions(anchor, &considered);
    proof {
        assert(commits_view(considered@).len() == considered@.len());
    }
    HistoryCohort {
        discovered_commits: commits.len(),
        considered_commits: considered.len(),
        excluded_commits: excluded,
        companions,
    }
}

} // verus!
