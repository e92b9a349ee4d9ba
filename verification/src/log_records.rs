//! The per-commit path tally shared by the batched `git log` readers: a
//! commit keeps its distinct changed paths in path order until it crosses
//! the broad-commit threshold; from then on its paths are only counted.
use vstd::prelude::*;

use crate::text::{chars_eq, chars_less, chars_of, seq_less, split_chars, split_on};
use crate::validate::{count_matching, lemma_count_matching_step, strings_view};

verus! {

/// Component-wise order of two component lists, each component by its
/// characters.
pub open spec fn components_less(a: Seq<Seq<char>>, b: Seq<Seq<char>>) -> bool
    decreases a.len(),
{
    if a.len() == 0 {
        b.len() > 0
    } else if b.len() == 0 {
        false
    } else if a[0] != b[0] {
        seq_less(a[0], b[0])
    } else {
        components_less(a.drop_first(), b.drop_first())
    }
}

/// Paths order by their `/`-separated components, as Git's normalized
/// relative paths order as `PathBuf`s.
pub open spec fn path_less(a: Seq<char>, b: Seq<char>) -> bool {
    components_less(split_on(a, '/'), split_on(b, '/'))
}

/// How many of `s` order before `p`.
pub open spec fn count_paths_less(s: Seq<Seq<char>>, p: Seq<char>) -> nat {
    count_matching(s, |q: Seq<char>| path_less(q, p))
}

/// `s` with `p` added, unless already present, after the paths that order
/// before it.
pub open spec fn set_insert(s: Seq<Seq<char>>, p: Seq<char>) -> Seq<Seq<char>> {
    if s.contains(p) {
        s
    } else {
        s.insert(count_paths_less(s, p) as int, p)
    }
}

fn components_less_exec(a: &Vec<Vec<char>>, b: &Vec<Vec<char>>) -> (r: bool)
    ensures
        r == components_less(crate::text::seqs_view(a@), crate::text::seqs_view(b@)),
{
    let ghost x = crate::text::seqs_view(a@);
    let ghost y = crate::text::seqs_view(b@);
    let mut i: usize = 0;
    assert(x.skip(0) =~= x);
    assert(y.skip(0) =~= y);
    while i < a.len() && i < b.len()
        invariant
            i <= a@.len(),
            i <= b@.len(),
            x == crate::text::seqs_view(a@),
            y == crate::text::seqs_view(b@),
            forall|k: int| 0 <= k < i ==> x[k] == y[k],
            components_less(x, y) == components_less(x.skip(i as int), y.skip(i as int)),
        decreases a.len() - i,
    {
        assert(x[i as int] == a@[i as int]@);
        assert(y[i as int] == b@[i as int]@);
        assert(x.skip(i as int)[0] == x[i as int]);
        assert(y.skip(i as int)[0] == y[i as int]);
        if !chars_eq(a[i].as_slice(), b[i].as_slice()) {
            return chars_less(a[i].as_slice(), b[i].as_slice());
        }
        assert(x.skip(i as int).drop_first() =~= x.skip(i + 1));
        assert(y.skip(i as int).drop_first() =~= y.skip(i + 1));
        i = i + 1;
    }
    assert(x.skip(i as int).len() == x.len() - i);
    assert(y.skip(i as int).len() == y.len() - i);
    i == a.len() && i < b.len()
}

fn path_less_exec(a: &str, b: &str) -> (r: bool)
    ensures
        r == path_less(a@, b@),
{
    let ac = chars_of(a);
    let bc = chars_of(b);
    let x = split_chars(ac.as_slice(), '/');
    let y = split_chars(bc.as_slice(), '/');
    components_less_exec(&x, &y)
}

/// A sorted set of distinct paths.
#[derive(Debug)]
pub struct PathSet {
    pub paths: Vec<String>,
}

impl PathSet {
    pub open spec fn view_paths(&self) -> Seq<Seq<char>> {
        strings_view(self.paths@)
    }

    pub fn new() -> (s: PathSet)
        ensures
            s.view_paths() == Seq::<Seq<char>>::empty(),
    {
        let s = PathSet { paths: Vec::new() };
        assert(s.view_paths() =~= Seq::<Seq<char>>::empty());
        s
    }

    /// Adds `p` unless present, in path order.
    pub fn insert(&mut self, p: &str)
        ensures
            final(self).view_paths() == set_insert(old(self).view_paths(), p@),
    {
        let ghost s = self.view_paths();
        let pc = chars_of(p);
        let mut n: usize = 0;
        let mut found = false;
        let mut i: usize = 0;
        while i < self.paths.len()
            invariant
                i <= self.paths@.len(),
                s == strings_view(self.paths@),
                pc@ == p@,
                n == count_matching(s.take(i as int), |q: Seq<char>| path_less(q, p@)),
                n <= i,
                found == s.take(i as int).contains(p@),
            decreases self.paths.len() - i,
        {
            proof {
                lemma_count_matching_step(s, i as int, |q: Seq<char>| path_less(q, p@));
                let a = s.take(i as int);
                let b = s.take(i + 1);
                assert(b == a.push(s[i as int]));
                assert(b.contains(p@) == (a.contains(p@) || s[i as int] == p@)) by {
                    if a.contains(p@) {
                        let j = choose|j: int| 0 <= j < a.len() && a[j] == p@;
                        assert(b[j] == p@);
                    }
                    if b.contains(p@) {
                        let j = choose|j: int| 0 <= j < b.len() && b[j] == p@;
                        if j < i {
                            assert(a[j] == p@);
                        }
                    }
                    if s[i as int] == p@ {
                        assert(b[i as int] == p@);
                    }
                }
            }
            assert(s[i as int] == self.paths@[i as int]@);
            let qc = chars_of(self.paths[i].as_str());
            if chars_eq(qc.as_slice(), pc.as_slice()) {
                found = true;
            }
            if path_less_exec(self.paths[i].as_str(), p) {
                n = n + 1;
            }
            i = i + 1;
        }
        assert(s.take(i as int) =~= s);
        if !found {
            let ghost before = self.paths@;
            let owned = crate::text::owned(p);
            self.paths.insert(n, owned);
            assert(strings_view(self.paths@) =~= strings_view(before).insert(n as int, p@));
        }
    }
}

/// A commit's paths so far: retained while at most `max` distinct paths,
/// afterwards only counted.
#[derive(Debug)]
pub struct PathTally {
    pub set: PathSet,
    pub counting_only: bool,
    pub overflow: usize,
}

pub struct TallyView {
    pub paths: Seq<Seq<char>>,
    pub counting_only: bool,
    pub overflow: nat,
}

impl PathTally {
    pub open spec fn tally_view(&self) -> TallyView {
        TallyView {
            paths: self.set.view_paths(),
            counting_only: self.counting_only,
            overflow: self.overflow as nat,
        }
    }

    /// At most `offers` paths were offered with threshold `max`: the
    /// retained paths, or the threshold plus the counted overflow, fit.
    pub open spec fn bounded_by(&self, max: usize, offers: nat) -> bool {
        &&& self.counting_only ==> max + 1 + self.overflow <= offers
        &&& !self.counting_only ==> self.set.view_paths().len() <= offers
    }

    pub fn new() -> (t: PathTally)
        ensures
            t.tally_view() == empty_tally(),
            t.bounded_by(0, 0),
    {
        PathTally { set: PathSet::new(), counting_only: false, overflow: 0 }
    }
}

pub open spec fn empty_tally() -> TallyView {
    TallyView { paths: Seq::empty(), counting_only: false, overflow: 0 }
}

/// Offering one more path to a tally.
pub open spec fn tally_offer(t: TallyView, max: usize, p: Seq<char>) -> TallyView {
    if t.counting_only {
        TallyView { overflow: t.overflow + 1, ..t }
    } else {
        let ps = set_insert(t.paths, p);
        if ps.len() > max {
            TallyView { paths: Seq::empty(), counting_only: true, overflow: 0 }
        } else {
            TallyView { paths: ps, ..t }
        }
    }
}

/// How many paths a finished tally reports as changed.
pub open spec fn tally_changed(t: TallyView, max: usize) -> nat {
    if t.counting_only {
        (max + 1 + t.overflow) as nat
    } else {
        t.paths.len()
    }
}

proof fn lemma_set_insert_len(s: Seq<Seq<char>>, p: Seq<char>)
    ensures
        set_insert(s, p).len() <= s.len() + 1,
{
    crate::validate::lemma_count_matching_bound(s, |q: Seq<char>| path_less(q, p));
}

pub fn tally_offer_exec(t: &mut PathTally, max: usize, p: &str, Ghost(offers): Ghost<nat>)
    requires
        old(t).bounded_by(max, offers),
        offers + 1 <= usize::MAX,
    ensures
        final(t).tally_view() == tally_offer(old(t).tally_view(), max, p@),
        final(t).bounded_by(max, offers + 1),
{
    if t.counting_only {
        t.overflow = t.overflow + 1;
        return;
    }
    t.set.insert(p);
    proof {
        lemma_set_insert_len(old(t).set.view_paths(), p@);
    }
    if t.set.paths.len() > max {
        t.counting_only = true;
        t.set = PathSet::new();
        t.overflow = 0;
    }
}

/// The number of changed paths the tally reports.
pub fn tally_changed_exec(t: &PathTally, max: usize, Ghost(offers): Ghost<nat>) -> (n: usize)
    requires
        t.bounded_by(max, offers),
        offers <= usize::MAX,
    ensures
        n == tally_changed(t.tally_view(), max),
{
    if t.counting_only {
        max + 1 + t.overflow
    } else {
        t.set.paths.len()
    }
}

} // verus!
