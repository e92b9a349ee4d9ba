//! Test-module naming precedent: repository-wide and file-local name counts,
//! and the tension between them for changed declarations.
use vstd::prelude::*;

use crate::text::{
    chars_eq, chars_less, chars_of, lemma_seq_less_irreflexive, lemma_seq_less_total,
    lemma_seq_less_transitive, owned, seq_less, string_of,
};

verus! {

/// One test-gated module declaration.
#[derive(Debug, Clone, Eq, PartialEq)]
pub struct TestModuleOccurrence {
    pub name: String,
    pub path: String,
    pub line: usize,
}

/// Parse failures are kept beside the occurrences.
#[derive(Debug, Clone, Eq, PartialEq)]
pub struct ParseFailure {
    pub path: String,
    pub error: String,
}

#[derive(Debug, Clone, Eq, PartialEq)]
pub struct TestModuleReport {
    pub occurrences: Vec<TestModuleOccurrence>,
    pub parse_failures: Vec<ParseFailure>,
}

/// The mathematical form of an occurrence: name, path, line.
pub struct OccurrenceSpec {
    pub name: Seq<char>,
    pub path: Seq<char>,
    pub line: usize,
}

impl View for TestModuleOccurrence {
    type V = OccurrenceSpec;

    open spec fn view(&self) -> OccurrenceSpec {
        OccurrenceSpec { name: self.name@, path: self.path@, line: self.line }
    }
}

pub open spec fn occurrences_view(os: Seq<TestModuleOccurrence>) -> Seq<OccurrenceSpec> {
    os.map_values(|o: TestModuleOccurrence| o@)
}

#[derive(Debug, Clone, Eq, PartialEq)]
pub struct NameCount {
    pub name: String,
    pub count: usize,
}

/// Occurrence counts per module name; names are distinct and counts positive.
#[derive(Debug, Clone, Eq, PartialEq)]
pub struct NameCounts {
    pub entries: Vec<NameCount>,
}

/// How many occurrences other than `target` carry `name`.
pub open spec fn count_excluding(os: Seq<OccurrenceSpec>, target: OccurrenceSpec, name: Seq<char>) -> nat
    decreases os.len(),
{
    if os.len() == 0 {
        0
    } else {
        count_excluding(os.drop_last(), target, name) + if os.last() != target && os.last().name
            == name {
            1nat
        } else {
            0nat
        }
    }
}

impl NameCounts {
    pub open spec fn wf(&self) -> bool {
        &&& forall|i: int, j: int|
            0 <= i < j < self.entries@.len() ==> (#[trigger] self.entries@[i]).name@
                != (#[trigger] self.entries@[j]).name@
        &&& forall|i: int| 0 <= i < self.entries@.len() ==> (#[trigger] self.entries@[i]).count > 0
    }

    /// The count recorded for `name` (0 when absent).
    pub open spec fn count_of(&self, name: Seq<char>) -> nat {
        if exists|i: int| 0 <= i < self.entries@.len() && (#[trigger] self.entries@[i]).name@ == name {
            self.entries@[choose|i: int|
                0 <= i < self.entries@.len() && (#[trigger] self.entries@[i]).name@ == name].count as nat
        } else {
            0
        }
    }

    fn find(&self, name: &[char]) -> (r: Option<usize>)
        ensures
            match r {
                Some(i) => i < self.entries@.len() && self.entries@[i as int].name@ == name@,
                None => forall|i: int|
                    0 <= i < self.entries@.len() ==> (#[trigger] self.entries@[i]).name@ != name@,
            },
    {
        let mut i: usize = 0;
        while i < self.entries.len()
            invariant
                i <= self.entries@.len(),
                forall|j: int| 0 <= j < i ==> (#[trigger] self.entries@[j]).name@ != name@,
            decreases self.entries.len() - i,
        {
            let n = chars_of(self.entries[i].name.as_str());
            if chars_eq(n.as_slice(), name) {
                return Some(i);
            }
            i = i + 1;
        }
        None
    }

    /// The recorded count for `name`, if any.
    pub fn get(&self, name: &str) -> (r: Option<usize>)
        requires
            self.wf(),
        ensures
            match r {
                Some(c) => c > 0 && c == self.count_of(name@),
                None => self.count_of(name@) == 0,
            },
    {
        let nc = chars_of(name);
        match self.find(nc.as_slice()) {
            Some(i) => {
                proof {
                    let k = choose|k: int|
                        0 <= k < self.entries@.len() && (#[trigger] self.entries@[k]).name@ == name@;
                    if k != i {
                        if k < i {
                            assert(self.entries@[k].name@ != self.entries@[i as int].name@);
                        } else {
                            assert(self.entries@[i as int].name@ != self.entries@[k].name@);
                        }
                    }
                }
                Some(self.entries[i].count)
            },
            None => None,
        }
    }
}

proof fn lemma_count_bound(os: Seq<OccurrenceSpec>, target: OccurrenceSpec, name: Seq<char>)
    ensures
        count_excluding(os, target, name) <= os.len(),
    decreases os.len(),
{
    if os.len() > 0 {
        lemma_count_bound(os.drop_last(), target, name);
    }
}

fn same_occurrence(a: &TestModuleOccurrence, b: &TestModuleOccurrence) -> (r: bool)
    ensures
        r == (a@ == b@),
{
    let an = chars_of(a.name.as_str());
    let bn = chars_of(b.name.as_str());
    let ap = chars_of(a.path.as_str());
    let bp = chars_of(b.path.as_str());
    a.line == b.line && chars_eq(an.as_slice(), bn.as_slice()) && chars_eq(
        ap.as_slice(),
        bp.as_slice(),
    )
}

/// Counts module names across the report, excluding the target declaration.
pub fn module_name_counts_excluding(report: &TestModuleReport, target: &TestModuleOccurrence) -> (r:
    NameCounts)
    ensures
        r.wf(),
        forall|name: Seq<char>|
            #[trigger] r.count_of(name) == count_excluding(
                occurrences_view(report.occurrences@),
                target@,
                name,
            ),
{
    let ghost os = occurrences_view(report.occurrences@);
    let mut counts = NameCounts { entries: Vec::new() };
    let mut i: usize = 0;
    while i < report.occurrences.len()
        invariant
            i <= report.occurrences@.len(),
            os == occurrences_view(report.occurrences@),
            counts.wf(),
            forall|name: Seq<char>|
                #[trigger] counts.count_of(name) == count_excluding(os.take(i as int), target@, name),
        decreases report.occurrences.len() - i,
    {
        let occ = &report.occurrences[i];
        assert(os.take(i + 1).drop_last() == os.take(i as int));
        assert(os.take(i + 1).last() == occ@);
        if !same_occurrence(occ, target) {
            let nc = chars_of(occ.name.as_str());
            proof {
                lemma_count_bound(os.take(i as int), target@, occ.name@);
            }
            match counts.find(nc.as_slice()) {
                Some(k) => {
                    let ghost old_counts = counts;
                    let old = counts.entries[k].count;
                    assert(old == old_counts.count_of(occ.name@)) by {
                        let w = choose|w: int|
                            0 <= w < old_counts.entries@.len()
                                && (#[trigger] old_counts.entries@[w]).name@ == occ.name@;
                        if w != k {
                            if w < k {
                                assert(old_counts.entries@[w].name@ != old_counts.entries@[k as int].name@);
                            } else {
                                assert(old_counts.entries@[k as int].name@ != old_counts.entries@[w].name@);
                            }
                        }
                    }
                    let name = counts.entries[k].name.clone();
                    counts.entries.set(k, NameCount { name, count: old + 1 });
                    proof {
                        assert forall|name: Seq<char>|
                            #[trigger] counts.count_of(name) == count_excluding(
                                os.take(i + 1),
                                target@,
                                name,
                            ) by {
                            assert(count_excluding(os.take(i + 1), target@, name) == count_excluding(
                                os.take(i as int),
                                target@,
                                name,
                            ) + if occ@ != target@ && occ.name@ == name {
                                1nat
                            } else {
                                0nat
                            });
                            assert(old_counts.count_of(name) == count_excluding(
                                os.take(i as int),
                                target@,
                                name,
                            ));
                            if name == occ.name@ {
                                assert(counts.entries@[k as int].name@ == name);
                                let w = choose|w: int|
                                    0 <= w < counts.entries@.len()
                                        && (#[trigger] counts.entries@[w]).name@ == name;
                                if w != k {
                                    assert(counts.entries@[w] == old_counts.entries@[w]);
                                    if w < k {
                                        assert(old_counts.entries@[w].name@ != old_counts.entries@[k as int].name@);
                                    } else {
                                        assert(old_counts.entries@[k as int].name@ != old_counts.entries@[w].name@);
                                    }
                                }
                            } else {
                                if exists|w: int|
                                    0 <= w < counts.entries@.len()
                                        && (#[trigger] counts.entries@[w]).name@ == name {
                                    let w = choose|w: int|
                                        0 <= w < counts.entries@.len()
                                            && (#[trigger] counts.entries@[w]).name@ == name;
                                    assert(old_counts.entries@[w] == counts.entries@[w]);
                                    let v = choose|v: int|
                                        0 <= v < old_counts.entries@.len()
                                            && (#[trigger] old_counts.entries@[v]).name@ == name;
                                    if v != w {
                                        if v < w {
                                            assert(old_counts.entries@[v].name@ != old_counts.entries@[w].name@);
                                        } else {
                                            assert(old_counts.entries@[w].name@ != old_counts.entries@[v].name@);
                                        }
                                    }
                                } else {
                                    if exists|w: int|
                                        0 <= w < old_counts.entries@.len()
                                            && (#[trigger] old_counts.entries@[w]).name@ == name {
                                        let w = choose|w: int|
                                            0 <= w < old_counts.entries@.len()
                                                && (#[trigger] old_counts.entries@[w]).name@ == name;
                                        assert(counts.entries@[w].name@ == name);
                                    }
                                }
                            }
                        }
                    }
                },
                None => {
                    let ghost old_counts = counts;
                    assert(old_counts.count_of(occ.name@) == 0);
                    counts.entries.push(NameCount { name: occ.name.clone(), count: 1 });
                    proof {
                        let n = old_counts.entries@.len() as int;
                        assert forall|name: Seq<char>|
                            #[trigger] counts.count_of(name) == count_excluding(
                                os.take(i + 1),
                                target@,
                                name,
                            ) by {
                            assert(count_excluding(os.take(i + 1), target@, name) == count_excluding(
                                os.take(i as int),
                                target@,
                                name,
                            ) + if occ@ != target@ && occ.name@ == name {
                                1nat
                            } else {
                                0nat
                            });
                            assert(old_counts.count_of(name) == count_excluding(
                                os.take(i as int),
                                target@,
                                name,
                            ));
                            if name == occ.name@ {
                                assert(counts.entries@[n].name@ == name);
                                let w = choose|w: int|
                                    0 <= w < counts.entries@.len()
                                        && (#[trigger] counts.entries@[w]).name@ == name;
                                if w != n {
                                    assert(old_counts.entries@[w].name@ == name);
                                }
                            } else {
                                if exists|w: int|
                                    0 <= w < counts.entries@.len()
                                        && (#[trigger] counts.entries@[w]).name@ == name {
                                    let w = choose|w: int|
                                        0 <= w < counts.entries@.len()
                                            && (#[trigger] counts.entries@[w]).name@ == name;
                                    assert(w != n);
                                    assert(old_counts.entries@[w] == counts.entries@[w]);
                                    let v = choose|v: int|
                                        0 <= v < old_counts.entries@.len()
                                            && (#[trigger] old_counts.entries@[v]).name@ == name;
                                    if v != w {
                                        if v < w {
                                            assert(old_counts.entries@[v].name@ != old_counts.entries@[w].name@);
                                        } else {
                                            assert(old_counts.entries@[w].name@ != old_counts.entries@[v].name@);
                                        }
                                    }
                                } else {
                                    if exists|w: int|
                                        0 <= w < old_counts.entries@.len()
                                            && (#[trigger] old_counts.entries@[w]).name@ == name {
                                        let w = choose|w: int|
                                            0 <= w < old_counts.entries@.len()
                                                && (#[trigger] old_counts.entries@[w]).name@ == name;
                                        assert(counts.entries@[w].name@ == name);
                                    }
                                }
                            }
                        }
                    }
                },
            }
        } else {
            assert forall|name: Seq<char>|
                #[trigger] counts.count_of(name) == count_excluding(os.take(i + 1), target@, name) by {}
        }
        i = i + 1;
    }
    assert(os.take(i as int) == os);
    counts
}


pub open spec fn strs_view(v: Seq<String>) -> Seq<Seq<char>> {
    v.map_values(|s: String| s@)
}

/// Strictly increasing in the order of `String`, hence free of duplicates.
pub open spec fn sorted_names(v: Seq<Seq<char>>) -> bool {
    forall|i: int, j: int| 0 <= i < j < v.len() ==> seq_less(#[trigger] v[i], #[trigger] v[j])
}

/// Inserts `name` into a sorted, duplicate-free list of names.
pub fn insert_sorted(names: &mut Vec<String>, name: String)
    requires
        sorted_names(strs_view(old(names)@)),
    ensures
        sorted_names(strs_view(final(names)@)),
        strs_view(final(names)@).to_set() == strs_view(old(names)@).to_set().insert(name@),
{
    let ghost old_v = strs_view(names@);
    let nc = chars_of(name.as_str());
    let mut i: usize = 0;
    let mut stop = false;
    while i < names.len() && !stop
        invariant
            i <= names@.len(),
            old_v == strs_view(names@),
            nc@ == name@,
            sorted_names(old_v),
            forall|j: int| 0 <= j < i ==> seq_less(#[trigger] old_v[j], name@),
            stop ==> i < names@.len() && !seq_less(old_v[i as int], name@),
        decreases names.len() - i + if stop { 0int } else { 1int },
    {
        let cur = chars_of(names[i].as_str());
        assert(cur@ == old_v[i as int]);
        if !chars_less(cur.as_slice(), nc.as_slice()) {
            stop = true;
        } else {
            i = i + 1;
        }
    }
    if i < names.len() {
        let cur = chars_of(names[i].as_str());
        assert(cur@ == old_v[i as int]);
        if chars_eq(cur.as_slice(), nc.as_slice()) {
            assert(old_v.to_set() =~= old_v.to_set().insert(name@)) by {
                assert(old_v[i as int] == name@);
            }
            return;
        }
        proof {
            lemma_seq_less_total(old_v[i as int], name@);
        }
    }
    names.insert(i, name);
    proof {
        let v = strs_view(names@);
        assert(v =~= old_v.insert(i as int, nc@));
        assert forall|a: int, b: int| 0 <= a < b < v.len() implies seq_less(#[trigger] v[a], #[trigger] v[b]) by {
            if a < i && b == i {
            } else if a < i && b > i {
                assert(v[b] == old_v[b - 1]);
            } else if a == i && b > i {
                assert(v[b] == old_v[b - 1]);
                if b - 1 > i {
                    assert(seq_less(old_v[i as int], old_v[b - 1]));
                    lemma_seq_less_transitive(name@, old_v[i as int], old_v[b - 1]);
                }
            } else if a > i {
                assert(v[a] == old_v[a - 1]);
                assert(v[b] == old_v[b - 1]);
            }
        }
        assert(v.to_set() =~= old_v.to_set().insert(name@)) by {
            assert forall|x: Seq<char>| v.to_set().contains(x) <==> old_v.to_set().insert(name@).contains(x) by {
                if v.to_set().contains(x) {
                    let k = choose|k: int| 0 <= k < v.len() && v[k] == x;
                    if k < i {
                        assert(old_v[k] == x);
                    } else if k > i {
                        assert(old_v[k - 1] == x);
                    }
                }
                if old_v.to_set().contains(x) {
                    let k = choose|k: int| 0 <= k < old_v.len() && old_v[k] == x;
                    if k < i {
                        assert(v[k] == x);
                    } else {
                        assert(v[k + 1] == x);
                    }
                }
                if x == name@ {
                    assert(v[i as int] == x);
                }
            }
        }
    }
}

/// Names of the other declarations in the target's file.
pub open spec fn local_name_set(os: Seq<OccurrenceSpec>, target: OccurrenceSpec) -> Set<Seq<char>> {
    Set::new(
        |n: Seq<char>|
            exists|i: int|
                0 <= i < os.len() && (#[trigger] os[i]).path == target.path && (os[i].line
                    != target.line || os[i].name != target.name) && os[i].name == n,
    )
}

/// The names used by the target's file apart from the target itself, in
/// order and without duplicates.
pub fn same_file_names(report: &TestModuleReport, target: &TestModuleOccurrence) -> (r: Vec<String>)
    ensures
        sorted_names(strs_view(r@)),
        strs_view(r@).to_set() == local_name_set(occurrences_view(report.occurrences@), target@),
{
    let ghost os = occurrences_view(report.occurrences@);
    let mut names: Vec<String> = Vec::new();
    let tp = chars_of(target.path.as_str());
    let tn = chars_of(target.name.as_str());
    let mut i: usize = 0;
    while i < report.occurrences.len()
        invariant
            i <= report.occurrences@.len(),
            os == occurrences_view(report.occurrences@),
            tp@ == target.path@,
            tn@ == target.name@,
            sorted_names(strs_view(names@)),
            strs_view(names@).to_set() == local_name_set(os.take(i as int), target@),
        decreases report.occurrences.len() - i,
    {
        let occ = &report.occurrences[i];
        let op = chars_of(occ.path.as_str());
        let on = chars_of(occ.name.as_str());
        let ghost before = strs_view(names@).to_set();
        if chars_eq(op.as_slice(), tp.as_slice()) && (occ.line != target.line || !chars_eq(
            on.as_slice(),
            tn.as_slice(),
        )) {
            insert_sorted(&mut names, occ.name.clone());
            assert(local_name_set(os.take(i + 1), target@) =~= before.insert(occ.name@)) by {
                assert(os.take(i + 1)[i as int] == occ@);
                assert forall|n: Seq<char>| local_name_set(os.take(i + 1), target@).contains(n) implies before.insert(occ.name@).contains(n) by {
                    let k = choose|k: int|
                        0 <= k < os.take(i + 1).len() && (#[trigger] os.take(i + 1)[k]).path
                            == target@.path && (os.take(i + 1)[k].line != target@.line
                            || os.take(i + 1)[k].name != target@.name) && os.take(i + 1)[k].name == n;
                    if k < i {
                        assert(os.take(i as int)[k] == os.take(i + 1)[k]);
                    }
                }
                assert forall|n: Seq<char>| before.insert(occ.name@).contains(n) implies local_name_set(os.take(i + 1), target@).contains(n) by {
                    if n != occ.name@ {
                        let k = choose|k: int|
                            0 <= k < os.take(i as int).len() && (#[trigger] os.take(i as int)[k]).path
                                == target@.path && (os.take(i as int)[k].line != target@.line
                                || os.take(i as int)[k].name != target@.name) && os.take(i as int)[k].name == n;
                        assert(os.take(i + 1)[k] == os.take(i as int)[k]);
                    }
                }
            }
        } else {
            assert(local_name_set(os.take(i + 1), target@) =~= before) by {
                assert(os.take(i + 1)[i as int] == occ@);
                assert forall|n: Seq<char>| local_name_set(os.take(i + 1), target@).contains(n) implies before.contains(n) by {
                    let k = choose|k: int|
                        0 <= k < os.take(i + 1).len() && (#[trigger] os.take(i + 1)[k]).path
                            == target@.path && (os.take(i + 1)[k].line != target@.line
                            || os.take(i + 1)[k].name != target@.name) && os.take(i + 1)[k].name == n;
                    if k < i {
                        assert(os.take(i as int)[k] == os.take(i + 1)[k]);
                    }
                }
                assert forall|n: Seq<char>| before.contains(n) implies local_name_set(os.take(i + 1), target@).contains(n) by {
                    let k = choose|k: int|
                        0 <= k < os.take(i as int).len() && (#[trigger] os.take(i as int)[k]).path
                            == target@.path && (os.take(i as int)[k].line != target@.line
                            || os.take(i as int)[k].name != target@.name) && os.take(i as int)[k].name == n;
                    assert(os.take(i + 1)[k] == os.take(i as int)[k]);
                }
            }
        }
        i = i + 1;
    }
    assert(os.take(i as int) == os);
    names
}

/// The name whose count is strictly greater than every other count.
pub open spec fn dominant_index(c: NameCounts, i: int) -> bool {
    0 <= i < c.entries@.len() && forall|j: int|
        0 <= j < c.entries@.len() && j != i ==> (#[trigger] c.entries@[j]).count < c.entries@[i].count
}

/// The repository-wide favourite: the unique name with the highest count.
pub fn repository_dominant_name(counts: &NameCounts) -> (r: Option<String>)
    ensures
        match r {
            Some(n) => exists|i: int| dominant_index(*counts, i) && counts.entries@[i].name@ == n@,
            None => forall|i: int| !dominant_index(*counts, i),
        },
{
    if counts.entries.len() == 0 {
        return None;
    }
    let mut best: usize = 0;
    let mut tied = false;
    let mut i: usize = 1;
    while i < counts.entries.len()
        invariant
            1 <= i <= counts.entries@.len(),
            best < i,
            forall|j: int| 0 <= j < i ==> (#[trigger] counts.entries@[j]).count <= counts.entries@[best as int].count,
            tied <==> exists|j: int| 0 <= j < i && j != best && (#[trigger] counts.entries@[j]).count == counts.entries@[best as int].count,
        decreases counts.entries.len() - i,
    {
        let c = counts.entries[i].count;
        if c > counts.entries[best].count {
            best = i;
            tied = false;
        } else if c == counts.entries[best].count {
            tied = true;
        }
        i = i + 1;
    }
    if tied {
        proof {
            let j = choose|j: int| 0 <= j < i && j != best && (#[trigger] counts.entries@[j]).count == counts.entries@[best as int].count;
            assert forall|k: int| !dominant_index(*counts, k) by {
                if dominant_index(*counts, k) {
                    if k != best {
                        assert(counts.entries@[best as int].count < counts.entries@[k].count);
                    } else {
                        assert(counts.entries@[j].count < counts.entries@[k].count);
                    }
                }
            }
        }
        None
    } else {
        assert(dominant_index(*counts, best as int));
        Some(counts.entries[best].name.clone())
    }
}

/// The file-local favourite: the single name the file already uses.
pub fn file_local_name(local_names: &Vec<String>) -> (r: Option<String>)
    ensures
        match r {
            Some(n) => local_names@.len() == 1 && n@ == local_names@[0]@,
            None => local_names@.len() != 1,
        },
{
    if local_names.len() == 1 {
        Some(local_names[0].clone())
    } else {
        None
    }
}

/// Repository-wide and file-local precedent favour different names.
pub fn precedent_tension(counts: &NameCounts, local_names: &Vec<String>) -> (r: Option<(String, String)>)
    requires
        strs_view(local_names@).no_duplicates(),
    ensures
        match r {
            Some((repo, file)) => {
                &&& exists|i: int| dominant_index(*counts, i) && counts.entries@[i].name@ == repo@
                &&& local_names@.len() == 1 && file@ == local_names@[0]@
                &&& repo@ != file@
            },
            None => (forall|i: int| !dominant_index(*counts, i)) || local_names@.len() != 1 || (
            exists|i: int| dominant_index(*counts, i) && counts.entries@[i].name@ == local_names@[0]@),
        },
{
    let repository = match repository_dominant_name(counts) {
        Some(n) => n,
        None => return None,
    };
    let file = match file_local_name(local_names) {
        Some(n) => n,
        None => return None,
    };
    let rc = chars_of(repository.as_str());
    let fc = chars_of(file.as_str());
    if chars_eq(rc.as_slice(), fc.as_slice()) {
        None
    } else {
        Some((repository, file))
    }
}


/// `a` is listed before `b`: higher count first, then name order.
pub open spec fn ranks_before(a: NameCount, b: NameCount) -> bool {
    a.count > b.count || (a.count == b.count && seq_less(a.name@, b.name@))
}

pub open spec fn distinct_names(es: Seq<NameCount>) -> bool {
    forall|i: int, j: int| 0 <= i < j < es.len() ==> (#[trigger] es[i]).name@ != (#[trigger] es[j]).name@
}

/// The entry ranked before every other one.
pub open spec fn is_best(es: Seq<NameCount>, i: int) -> bool {
    0 <= i < es.len() && forall|j: int| 0 <= j < es.len() && j != i ==> ranks_before(es[i], #[trigger] es[j])
}

pub open spec fn best_index(es: Seq<NameCount>) -> int {
    choose|i: int| is_best(es, i)
}

/// The first `k` entries in rank order.
pub open spec fn top_entries(es: Seq<NameCount>, k: nat) -> Seq<NameCount>
    decreases k,
{
    if k == 0 || es.len() == 0 {
        Seq::empty()
    } else {
        let b = best_index(es);
        seq![es[b]] + top_entries(es.remove(b), (k - 1) as nat)
    }
}

pub open spec fn count_item(e: NameCount) -> Seq<char> {
    "`"@ + e.name@ + "`="@ + crate::text::decimal(e.count as nat)
}

/// Items joined by `, `.
pub open spec fn join_counts(es: Seq<NameCount>) -> Seq<char>
    decreases es.len(),
{
    if es.len() == 0 {
        Seq::empty()
    } else if es.len() == 1 {
        count_item(es[0])
    } else {
        join_counts(es.drop_last()) + ", "@ + count_item(es.last())
    }
}

/// The five most frequent names with their counts.
pub open spec fn counts_summary(es: Seq<NameCount>) -> Seq<char> {
    join_counts(top_entries(es, 5))
}

proof fn lemma_best_unique(es: Seq<NameCount>, i: int)
    requires
        distinct_names(es),
        is_best(es, i),
    ensures
        best_index(es) == i,
{
    let b = best_index(es);
    assert(is_best(es, b));
    if b != i {
        assert(ranks_before(es[i], es[b]));
        assert(ranks_before(es[b], es[i]));
        lemma_seq_less_total(es[i].name@, es[b].name@);
    }
}

fn rank_before_exec(a: &NameCount, b: &NameCount) -> (r: bool)
    ensures
        r == ranks_before(*a, *b),
{
    if a.count != b.count {
        a.count > b.count
    } else {
        let an = chars_of(a.name.as_str());
        let bn = chars_of(b.name.as_str());
        chars_less(an.as_slice(), bn.as_slice())
    }
}

fn best_of(es: &Vec<NameCount>) -> (b: usize)
    requires
        es@.len() > 0,
        distinct_names(es@),
    ensures
        is_best(es@, b as int),
{
    let mut b: usize = 0;
    let mut k: usize = 1;
    while k < es.len()
        invariant
            1 <= k <= es@.len(),
            b < k,
            distinct_names(es@),
            forall|j: int| 0 <= j < k && j != b ==> ranks_before(es@[b as int], #[trigger] es@[j]),
        decreases es.len() - k,
    {
        if rank_before_exec(&es[k], &es[b]) {
            proof {
                assert forall|j: int| 0 <= j < k + 1 && j != k implies ranks_before(es@[k as int], #[trigger] es@[j]) by {
                    if j != b {
                        assert(ranks_before(es@[b as int], es@[j]));
                        if es@[k as int].count == es@[b as int].count && es@[b as int].count == es@[j].count {
                            lemma_seq_less_transitive(es@[k as int].name@, es@[b as int].name@, es@[j].name@);
                        }
                    }
                }
            }
            b = k;
        } else {
            proof {
                if b < k {
                    assert(es@[b as int].name@ != es@[k as int].name@);
                }
                lemma_seq_less_total(es@[b as int].name@, es@[k as int].name@);
            }
        }
        k = k + 1;
    }
    b
}

/// `\`name\`=count` for the five most frequent names, most frequent first,
/// ties by name.
pub fn top_counts_summary(counts: &NameCounts) -> (s: String)
    requires
        counts.wf(),
    ensures
        s@ == counts_summary(counts.entries@),
{
    let mut rest: Vec<NameCount> = Vec::new();
    let mut c: usize = 0;
    while c < counts.entries.len()
        invariant
            c <= counts.entries@.len(),
            rest@ == counts.entries@.take(c as int),
        decreases counts.entries.len() - c,
    {
        let e = &counts.entries[c];
        rest.push(NameCount { name: e.name.clone(), count: e.count });
        c = c + 1;
        assert(rest@ =~= counts.entries@.take(c as int));
    }
    assert(counts.entries@.take(c as int) == counts.entries@);
    let mut out: Vec<char> = Vec::new();
    let mut taken: usize = 0;
    let ghost mut chosen: Seq<NameCount> = Seq::empty();
    assert(chosen + top_entries(rest@, 5) == top_entries(rest@, 5));
    while taken < 5 && rest.len() > 0
        invariant
            taken <= 5,
            distinct_names(rest@),
            top_entries(counts.entries@, 5) == chosen + top_entries(rest@, (5 - taken) as nat),
            chosen.len() == taken,
            out@ == join_counts(chosen),
        decreases 5 - taken,
    {
        let b = best_of(&rest);
        proof {
            lemma_best_unique(rest@, b as int);
        }
        let ghost old_rest = rest@;
        let e = rest.remove(b);
        assert(rest@ == old_rest.remove(b as int));
        proof {
            assert forall|x: int, y: int| 0 <= x < y < rest@.len() implies (#[trigger] rest@[x]).name@
                != (#[trigger] rest@[y]).name@ by {
                let ox = if x < b { x } else { x + 1 };
                let oy = if y < b { y } else { y + 1 };
                assert(rest@[x] == old_rest[ox]);
                assert(rest@[y] == old_rest[oy]);
            }
        }
        if taken > 0 {
            crate::text::extend_str(&mut out, ", ");
        }
        crate::text::extend_str(&mut out, "`");
        crate::text::extend_str(&mut out, e.name.as_str());
        crate::text::extend_str(&mut out, "`=");
        crate::text::push_decimal(&mut out, e.count);
        proof {
            let new_chosen = chosen.push(e);
            assert(new_chosen.drop_last() == chosen);
            if chosen.len() == 0 {
                assert(out@ =~= join_counts(new_chosen));
            } else {
                assert(out@ =~= join_counts(new_chosen));
            }
            assert(top_entries(old_rest, (5 - taken) as nat) == seq![old_rest[b as int]] + top_entries(
                old_rest.remove(b as int),
                (5 - taken - 1) as nat,
            ));
            assert(chosen + (seq![e] + top_entries(rest@, (5 - taken - 1) as nat)) =~= new_chosen
                + top_entries(rest@, (5 - taken - 1) as nat));
            chosen = new_chosen;
        }
        taken = taken + 1;
    }
    assert(top_entries(rest@, (5 - taken) as nat) =~= Seq::<NameCount>::empty());
    assert(chosen + Seq::<NameCount>::empty() == chosen);
    string_of(out.as_slice())
}

/// The count the entries record for `name` (0 when absent).
pub open spec fn seq_count(es: Seq<NameCount>, name: Seq<char>) -> nat {
    if exists|i: int| 0 <= i < es.len() && (#[trigger] es[i]).name@ == name {
        es[choose|i: int| 0 <= i < es.len() && (#[trigger] es[i]).name@ == name].count as nat
    } else {
        0
    }
}

/// Distinct names with positive counts that agree name by name.
pub open spec fn same_counts(a: Seq<NameCount>, b: Seq<NameCount>) -> bool {
    &&& distinct_names(a)
    &&& distinct_names(b)
    &&& forall|i: int| 0 <= i < a.len() ==> (#[trigger] a[i]).count > 0
    &&& forall|i: int| 0 <= i < b.len() ==> (#[trigger] b[i]).count > 0
    &&& forall|n: Seq<char>| #[trigger] seq_count(a, n) == seq_count(b, n)
}

pub open spec fn items_view(es: Seq<NameCount>) -> Seq<(Seq<char>, nat)> {
    es.map_values(|e: NameCount| (e.name@, e.count as nat))
}

proof fn lemma_seq_count_at(es: Seq<NameCount>, i: int)
    requires
        distinct_names(es),
        0 <= i < es.len(),
    ensures
        seq_count(es, es[i].name@) == es[i].count,
{
    let n = es[i].name@;
    let w = choose|w: int| 0 <= w < es.len() && (#[trigger] es[w]).name@ == n;
    if w != i {
        if w < i {
            assert(es[w].name@ != es[i].name@);
        } else {
            assert(es[i].name@ != es[w].name@);
        }
    }
}

proof fn lemma_ranks_transitive(a: NameCount, b: NameCount, c: NameCount)
    requires
        ranks_before(a, b),
        ranks_before(b, c),
    ensures
        ranks_before(a, c),
{
    if a.count == b.count && b.count == c.count {
        lemma_seq_less_transitive(a.name@, b.name@, c.name@);
    }
}

proof fn lemma_best_exists(es: Seq<NameCount>)
    requires
        distinct_names(es),
        es.len() > 0,
    ensures
        is_best(es, best_index(es)),
    decreases es.len(),
{
    if es.len() == 1 {
        assert(is_best(es, 0));
    } else {
        let d = es.drop_last();
        assert(distinct_names(d)) by {
            assert forall|i: int, j: int| 0 <= i < j < d.len() implies (#[trigger] d[i]).name@ != (#[trigger] d[j]).name@ by {
                assert(d[i] == es[i] && d[j] == es[j]);
            }
        }
        lemma_best_exists(d);
        let j = best_index(d);
        let l = es.len() - 1;
        assert(es[j].name@ != es[l].name@);
        lemma_seq_less_total(es[j].name@, es[l].name@);
        if ranks_before(es[j], es[l]) {
            assert forall|k: int| 0 <= k < es.len() && k != j implies ranks_before(es[j], #[trigger] es[k]) by {
                if k < l {
                    assert(ranks_before(d[j], d[k]));
                }
            }
            assert(is_best(es, j));
        } else {
            assert(ranks_before(es[l], es[j]));
            assert forall|k: int| 0 <= k < es.len() && k != l implies ranks_before(es[l], #[trigger] es[k]) by {
                if k != j {
                    assert(ranks_before(d[j], d[k]));
                    lemma_ranks_transitive(es[l], es[j], es[k]);
                }
            }
            assert(is_best(es, l));
        }
    }
}

proof fn lemma_join_counts_view(a: Seq<NameCount>, b: Seq<NameCount>)
    requires
        items_view(a) == items_view(b),
    ensures
        join_counts(a) == join_counts(b),
    decreases a.len(),
{
    assert(a.len() == items_view(a).len() && b.len() == items_view(b).len());
    if a.len() > 1 {
        assert(items_view(a.drop_last()) =~= items_view(a).drop_last());
        assert(items_view(b.drop_last()) =~= items_view(b).drop_last());
        lemma_join_counts_view(a.drop_last(), b.drop_last());
        assert(items_view(a)[a.len() - 1] == items_view(b)[a.len() - 1]);
    } else if a.len() == 1 {
        assert(items_view(a)[0] == items_view(b)[0]);
    }
}

proof fn lemma_remove_same_counts(a: Seq<NameCount>, b: Seq<NameCount>, ia: int, ib: int)
    requires
        same_counts(a, b),
        0 <= ia < a.len(),
        0 <= ib < b.len(),
        a[ia].name@ == b[ib].name@,
    ensures
        same_counts(a.remove(ia), b.remove(ib)),
{
    let ra = a.remove(ia);
    let rb = b.remove(ib);
    let n = a[ia].name@;
    assert forall|i: int, j: int| 0 <= i < j < ra.len() implies (#[trigger] ra[i]).name@ != (#[trigger] ra[j]).name@ by {
        let x = if i < ia { i } else { i + 1 };
        let y = if j < ia { j } else { j + 1 };
        assert(ra[i] == a[x] && ra[j] == a[y]);
    }
    assert forall|i: int, j: int| 0 <= i < j < rb.len() implies (#[trigger] rb[i]).name@ != (#[trigger] rb[j]).name@ by {
        let x = if i < ib { i } else { i + 1 };
        let y = if j < ib { j } else { j + 1 };
        assert(rb[i] == b[x] && rb[j] == b[y]);
    }
    assert forall|i: int| 0 <= i < ra.len() implies (#[trigger] ra[i]).count > 0 by {
        let x = if i < ia { i } else { i + 1 };
        assert(ra[i] == a[x]);
    }
    assert forall|i: int| 0 <= i < rb.len() implies (#[trigger] rb[i]).count > 0 by {
        let x = if i < ib { i } else { i + 1 };
        assert(rb[i] == b[x]);
    }
    assert forall|m: Seq<char>| #[trigger] seq_count(ra, m) == seq_count(rb, m) by {
        lemma_seq_count_remove(a, ia, m);
        lemma_seq_count_remove(b, ib, m);
    }
}

proof fn lemma_seq_count_remove(a: Seq<NameCount>, ia: int, m: Seq<char>)
    requires
        distinct_names(a),
        0 <= ia < a.len(),
    ensures
        seq_count(a.remove(ia), m) == if m == a[ia].name@ {
            0
        } else {
            seq_count(a, m)
        },
{
    let ra = a.remove(ia);
    if exists|i: int| 0 <= i < ra.len() && (#[trigger] ra[i]).name@ == m {
        let i = choose|i: int| 0 <= i < ra.len() && (#[trigger] ra[i]).name@ == m;
        let x = if i < ia { i } else { i + 1 };
        assert(ra[i] == a[x]);
        assert(x != ia ==> a[x].name@ != a[ia].name@) by {
            if x < ia {
                assert(a[x].name@ != a[ia].name@);
            } else if x > ia {
                assert(a[ia].name@ != a[x].name@);
            }
        }
        assert(distinct_names(ra)) by {
            assert forall|p: int, q: int| 0 <= p < q < ra.len() implies (#[trigger] ra[p]).name@ != (#[trigger] ra[q]).name@ by {
                let xp = if p < ia { p } else { p + 1 };
                let xq = if q < ia { q } else { q + 1 };
                assert(ra[p] == a[xp] && ra[q] == a[xq]);
            }
        }
        lemma_seq_count_at(ra, i);
        lemma_seq_count_at(a, x);
    } else {
        if m != a[ia].name@ && exists|i: int| 0 <= i < a.len() && (#[trigger] a[i]).name@ == m {
            let x = choose|i: int| 0 <= i < a.len() && (#[trigger] a[i]).name@ == m;
            let i = if x < ia { x } else { x - 1 };
            assert(ra[i] == a[x]);
        }
    }
}

pub proof fn lemma_seq_count_at_pub(es: Seq<NameCount>, i: int)
    requires
        distinct_names(es),
        0 <= i < es.len(),
    ensures
        seq_count(es, es[i].name@) == es[i].count,
{
    lemma_seq_count_at(es, i);
}

/// Names in strictly increasing order hold no name twice.
pub proof fn lemma_sorted_no_duplicates(v: Seq<Seq<char>>)
    requires
        sorted_names(v),
    ensures
        v.no_duplicates(),
{
    assert forall|i: int, j: int| 0 <= i < v.len() && 0 <= j < v.len() && i != j implies v[i] != v[j] by {
        if i < j {
            assert(seq_less(v[i], v[j]));
            if v[i] == v[j] {
                lemma_seq_less_irreflexive(v[i]);
            }
        } else {
            assert(seq_less(v[j], v[i]));
            if v[i] == v[j] {
                lemma_seq_less_irreflexive(v[i]);
            }
        }
    }
}

/// The counts summary depends only on the counts, not on the entries'
/// order.
pub proof fn lemma_top_entries_same(a: Seq<NameCount>, b: Seq<NameCount>, k: nat)
    requires
        same_counts(a, b),
    ensures
        items_view(top_entries(a, k)) == items_view(top_entries(b, k)),
    decreases k,
{
    if a.len() == 0 && b.len() > 0 {
        lemma_seq_count_at(b, 0);
        assert(seq_count(a, b[0].name@) == 0);
    }
    if b.len() == 0 && a.len() > 0 {
        lemma_seq_count_at(a, 0);
        assert(seq_count(b, a[0].name@) == 0);
    }
    if k == 0 || a.len() == 0 || b.len() == 0 {
        assert(items_view(top_entries(a, k)) =~= items_view(top_entries(b, k)));
    } else {
        lemma_best_exists(a);
        let ia = best_index(a);
        let n = a[ia].name@;
        lemma_seq_count_at(a, ia);
        assert(seq_count(b, n) > 0);
        let ib = choose|i: int| 0 <= i < b.len() && (#[trigger] b[i]).name@ == n;
        lemma_seq_count_at(b, ib);
        assert forall|j: int| 0 <= j < b.len() && j != ib implies ranks_before(b[ib], #[trigger] b[j]) by {
            let m = b[j].name@;
            assert(m != n) by {
                if j < ib {
                    assert(b[j].name@ != b[ib].name@);
                } else {
                    assert(b[ib].name@ != b[j].name@);
                }
            }
            lemma_seq_count_at(b, j);
            assert(seq_count(a, m) > 0);
            let ja = choose|i: int| 0 <= i < a.len() && (#[trigger] a[i]).name@ == m;
            lemma_seq_count_at(a, ja);
            assert(ranks_before(a[ia], a[ja]));
        }
        lemma_best_unique(b, ib);
        lemma_remove_same_counts(a, b, ia, ib);
        lemma_top_entries_same(a.remove(ia), b.remove(ib), (k - 1) as nat);
        let ta = top_entries(a, k);
        let tb = top_entries(b, k);
        assert(ta == seq![a[ia]] + top_entries(a.remove(ia), (k - 1) as nat));
        assert(tb == seq![b[ib]] + top_entries(b.remove(ib), (k - 1) as nat));
        let ra = top_entries(a.remove(ia), (k - 1) as nat);
        let rb = top_entries(b.remove(ib), (k - 1) as nat);
        assert(items_view(ta).len() == items_view(tb).len()) by {
            assert(items_view(ra).len() == items_view(rb).len());
        }
        assert forall|i: int| 0 <= i < items_view(ta).len() implies items_view(ta)[i] == items_view(tb)[i] by {
            if i > 0 {
                assert(ta[i] == ra[i - 1] && tb[i] == rb[i - 1]);
                assert(items_view(ra)[i - 1] == items_view(rb)[i - 1]);
            }
        }
        assert(items_view(ta) =~= items_view(tb));
    }
}

/// The summary of counts that agree is the same.
pub proof fn lemma_counts_summary_same(a: Seq<NameCount>, b: Seq<NameCount>)
    requires
        same_counts(a, b),
    ensures
        counts_summary(a) == counts_summary(b),
{
    lemma_top_entries_same(a, b, 5);
    lemma_join_counts_view(top_entries(a, 5), top_entries(b, 5));
}

/// Two name lists in strictly increasing order with the same names are the
/// same list.
pub proof fn lemma_sorted_names_unique(a: Seq<Seq<char>>, b: Seq<Seq<char>>)
    requires
        sorted_names(a),
        sorted_names(b),
        a.to_set() == b.to_set(),
    ensures
        a == b,
    decreases a.len(),
{
    if a.len() == 0 {
        if b.len() > 0 {
            assert(b.to_set().contains(b[0]));
        }
        assert(a =~= b);
    } else {
        assert(a.to_set().contains(a[0]));
        assert(b.len() > 0);
        assert(b.to_set().contains(b[0]));
        let p = choose|p: int| 0 <= p < b.len() && b[p] == a[0];
        let q = choose|q: int| 0 <= q < a.len() && a[q] == b[0];
        if a[0] != b[0] {
            assert(p > 0 && q > 0);
            assert(seq_less(b[0], b[p]));
            assert(seq_less(a[0], a[q]));
            lemma_seq_less_transitive(a[0], b[0], a[0]);
            lemma_seq_less_irreflexive(a[0]);
        }
        let a1 = a.drop_first();
        let b1 = b.drop_first();
        assert forall|x: Seq<char>| a1.to_set().contains(x) <==> b1.to_set().contains(x) by {
            if a1.to_set().contains(x) {
                let i = choose|i: int| 0 <= i < a1.len() && a1[i] == x;
                assert(a[i + 1] == x);
                assert(a.to_set().contains(x));
                let j = choose|j: int| 0 <= j < b.len() && b[j] == x;
                if j == 0 {
                    assert(seq_less(a[0], a[i + 1]));
                    lemma_seq_less_irreflexive(x);
                }
                assert(b1[j - 1] == x);
            }
            if b1.to_set().contains(x) {
                let i = choose|i: int| 0 <= i < b1.len() && b1[i] == x;
                assert(b[i + 1] == x);
                assert(b.to_set().contains(x));
                let j = choose|j: int| 0 <= j < a.len() && a[j] == x;
                if j == 0 {
                    assert(seq_less(b[0], b[i + 1]));
                    lemma_seq_less_irreflexive(x);
                }
                assert(a1[j - 1] == x);
            }
        }
        assert(a1.to_set() =~= b1.to_set());
        lemma_sorted_names_unique(a1, b1);
        assert(a =~= seq![a[0]] + a1);
        assert(b =~= seq![b[0]] + b1);
    }
}

} // verus!
