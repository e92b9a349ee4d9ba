//! Test-module precedent as aggregate counts: how many test-gated modules
//! carry each name, and the total, built from occurrences and combined
//! scope by scope; one occurrence can be left out of the counts.
use vstd::prelude::*;

use crate::precedent::{occurrences_view, NameCount, NameCounts, OccurrenceSpec, TestModuleOccurrence};
use crate::rust_facts::{NamedRustFact, RustFileFacts};
use crate::text::{chars_eq, chars_of, owned};

verus! {

/// How many occurrences carry `name`.
pub open spec fn named(os: Seq<OccurrenceSpec>, name: Seq<char>) -> nat
    decreases os.len(),
{
    if os.len() == 0 {
        0
    } else {
        named(os.drop_last(), name) + if os.last().name == name {
            1nat
        } else {
            0nat
        }
    }
}

pub proof fn lemma_count_of_at(c: NameCounts, k: int)
    requires
        c.wf(),
        0 <= k < c.entries@.len(),
    ensures
        c.count_of(c.entries@[k].name@) == c.entries@[k].count,
{
    let name = c.entries@[k].name@;
    assert(c.entries@[k].name@ == name);
    let w = choose|w: int| 0 <= w < c.entries@.len() && (#[trigger] c.entries@[w]).name@ == name;
    if w != k {
        if w < k {
            assert(c.entries@[w].name@ != c.entries@[k].name@);
        } else {
            assert(c.entries@[k].name@ != c.entries@[w].name@);
        }
    }
}

pub proof fn lemma_count_of_absent(c: NameCounts, name: Seq<char>)
    requires
        forall|w: int| 0 <= w < c.entries@.len() ==> (#[trigger] c.entries@[w]).name@ != name,
    ensures
        c.count_of(name) == 0,
{
}

proof fn lemma_count_of_some(c: NameCounts, name: Seq<char>)
    requires
        c.wf(),
        exists|w: int| 0 <= w < c.entries@.len() && (#[trigger] c.entries@[w]).name@ == name,
    ensures
        exists|w: int|
            0 <= w < c.entries@.len() && (#[trigger] c.entries@[w]).name@ == name && c.count_of(name)
                == c.entries@[w].count,
{
    let w = choose|w: int| 0 <= w < c.entries@.len() && (#[trigger] c.entries@[w]).name@ == name;
    lemma_count_of_at(c, w);
}

impl NameCounts {
    /// The counts with one more occurrence of `name`.
    pub fn increment(&mut self, name: &str)
        requires
            old(self).wf(),
            old(self).count_of(name@) < usize::MAX,
        ensures
            final(self).wf(),
            forall|n: Seq<char>|
                #[trigger] final(self).count_of(n) == old(self).count_of(n) + if n == name@ {
                    1nat
                } else {
                    0nat
                },
    {
        let ghost before = *self;
        let nc = chars_of(name);
        let mut k: usize = 0;
        let mut found = false;
        while k < self.entries.len() && !found
            invariant
                k <= self.entries@.len(),
                *self == before,
                nc@ == name@,
                forall|j: int| 0 <= j < k ==> (#[trigger] self.entries@[j]).name@ != name@,
                found ==> k < self.entries@.len() && self.entries@[k as int].name@ == name@,
            decreases self.entries.len() - k + if found {
                0int
            } else {
                1int
            },
        {
            let e = chars_of(self.entries[k].name.as_str());
            if chars_eq(e.as_slice(), nc.as_slice()) {
                found = true;
            } else {
                k = k + 1;
            }
        }
        if found {
            proof {
                lemma_count_of_at(before, k as int);
            }
            let c = self.entries[k].count;
            let n = owned(self.entries[k].name.as_str());
            self.entries.set(k, NameCount { name: n, count: c + 1 });
            proof {
                assert forall|i: int, j: int|
                    0 <= i < j < self.entries@.len() implies (#[trigger] self.entries@[i]).name@
                    != (#[trigger] self.entries@[j]).name@ by {
                    assert(before.entries@[i].name@ != before.entries@[j].name@);
                }
                assert forall|n: Seq<char>|
                    #[trigger] self.count_of(n) == before.count_of(n) + if n == name@ {
                        1nat
                    } else {
                        0nat
                    } by {
                    if n == name@ {
                        lemma_count_of_at(*self, k as int);
                    } else if exists|w: int|
                        0 <= w < self.entries@.len() && (#[trigger] self.entries@[w]).name@ == n {
                        let w = choose|w: int|
                            0 <= w < self.entries@.len() && (#[trigger] self.entries@[w]).name@ == n;
                        lemma_count_of_at(*self, w);
                        assert(self.entries@[w] == before.entries@[w]);
                        lemma_count_of_at(before, w);
                    } else {
                        assert forall|w: int| 0 <= w < before.entries@.len() implies (
                        #[trigger] before.entries@[w]).name@ != n by {
                            assert(self.entries@[w].name@ == before.entries@[w].name@);
                        }
                    }
                }
            }
        } else {
            proof {
                lemma_count_of_absent(before, name@);
            }
            self.entries.push(NameCount { name: owned(name), count: 1 });
            proof {
                let last = before.entries@.len() as int;
                assert forall|i: int, j: int|
                    0 <= i < j < self.entries@.len() implies (#[trigger] self.entries@[i]).name@
                    != (#[trigger] self.entries@[j]).name@ by {
                    if j == last {
                        assert(before.entries@[i].name@ != name@);
                    } else {
                        assert(before.entries@[i].name@ != before.entries@[j].name@);
                    }
                }
                assert forall|n: Seq<char>|
                    #[trigger] self.count_of(n) == before.count_of(n) + if n == name@ {
                        1nat
                    } else {
                        0nat
                    } by {
                    if n == name@ {
                        lemma_count_of_at(*self, last);
                    } else if exists|w: int|
                        0 <= w < self.entries@.len() && (#[trigger] self.entries@[w]).name@ == n {
                        let w = choose|w: int|
                            0 <= w < self.entries@.len() && (#[trigger] self.entries@[w]).name@ == n;
                        lemma_count_of_at(*self, w);
                        assert(w < last);
                        assert(self.entries@[w] == before.entries@[w]);
                        lemma_count_of_at(before, w);
                    } else {
                        assert forall|w: int| 0 <= w < before.entries@.len() implies (
                        #[trigger] before.entries@[w]).name@ != n by {
                            assert(self.entries@[w] == before.entries@[w]);
                        }
                    }
                }
            }
        }
    }

    /// The counts with `amount` more occurrences of `name`.
    pub fn increase(&mut self, name: &str, amount: usize)
        requires
            old(self).wf(),
            old(self).count_of(name@) + amount <= usize::MAX,
            amount > 0,
        ensures
            final(self).wf(),
            forall|n: Seq<char>|
                #[trigger] final(self).count_of(n) == old(self).count_of(n) + if n == name@ {
                    amount as nat
                } else {
                    0nat
                },
    {
        let ghost before = *self;
        let nc = chars_of(name);
        let mut k: usize = 0;
        let mut found = false;
        while k < self.entries.len() && !found
            invariant
                k <= self.entries@.len(),
                *self == before,
                nc@ == name@,
                forall|j: int| 0 <= j < k ==> (#[trigger] self.entries@[j]).name@ != name@,
                found ==> k < self.entries@.len() && self.entries@[k as int].name@ == name@,
            decreases self.entries.len() - k + if found {
                0int
            } else {
                1int
            },
        {
            let e = chars_of(self.entries[k].name.as_str());
            if chars_eq(e.as_slice(), nc.as_slice()) {
                found = true;
            } else {
                k = k + 1;
            }
        }
        if found {
            proof {
                lemma_count_of_at(before, k as int);
            }
            let c = self.entries[k].count;
            let n = owned(self.entries[k].name.as_str());
            self.entries.set(k, NameCount { name: n, count: c + amount });
            proof {
                assert forall|i: int, j: int|
                    0 <= i < j < self.entries@.len() implies (#[trigger] self.entries@[i]).name@
                    != (#[trigger] self.entries@[j]).name@ by {
                    assert(before.entries@[i].name@ != before.entries@[j].name@);
                }
                assert forall|n: Seq<char>|
                    #[trigger] self.count_of(n) == before.count_of(n) + if n == name@ {
                        amount as nat
                    } else {
                        0nat
                    } by {
                    if n == name@ {
                        lemma_count_of_at(*self, k as int);
                    } else if exists|w: int|
                        0 <= w < self.entries@.len() && (#[trigger] self.entries@[w]).name@ == n {
                        let w = choose|w: int|
                            0 <= w < self.entries@.len() && (#[trigger] self.entries@[w]).name@ == n;
                        lemma_count_of_at(*self, w);
                        assert(self.entries@[w] == before.entries@[w]);
                        lemma_count_of_at(before, w);
                    } else {
                        assert forall|w: int| 0 <= w < before.entries@.len() implies (
                        #[trigger] before.entries@[w]).name@ != n by {
                            assert(self.entries@[w].name@ == before.entries@[w].name@);
                        }
                    }
                }
            }
        } else {
            proof {
                lemma_count_of_absent(before, name@);
            }
            self.entries.push(NameCount { name: owned(name), count: amount });
            proof {
                let last = before.entries@.len() as int;
                assert forall|i: int, j: int|
                    0 <= i < j < self.entries@.len() implies (#[trigger] self.entries@[i]).name@
                    != (#[trigger] self.entries@[j]).name@ by {
                    if j == last {
                        assert(before.entries@[i].name@ != name@);
                    } else {
                        assert(before.entries@[i].name@ != before.entries@[j].name@);
                    }
                }
                assert forall|n: Seq<char>|
                    #[trigger] self.count_of(n) == before.count_of(n) + if n == name@ {
                        amount as nat
                    } else {
                        0nat
                    } by {
                    if n == name@ {
                        lemma_count_of_at(*self, last);
                    } else if exists|w: int|
                        0 <= w < self.entries@.len() && (#[trigger] self.entries@[w]).name@ == n {
                        let w = choose|w: int|
                            0 <= w < self.entries@.len() && (#[trigger] self.entries@[w]).name@ == n;
                        lemma_count_of_at(*self, w);
                        assert(w < last);
                        assert(self.entries@[w] == before.entries@[w]);
                        lemma_count_of_at(before, w);
                    } else {
                        assert forall|w: int| 0 <= w < before.entries@.len() implies (
                        #[trigger] before.entries@[w]).name@ != n by {
                            assert(self.entries@[w] == before.entries@[w]);
                        }
                    }
                }
            }
        }
    }

    /// The counts with one occurrence of `name` fewer; a name whose count
    /// reaches zero leaves, and an absent name changes nothing.
    pub fn decrement(&mut self, name: &str)
        requires
            old(self).wf(),
        ensures
            final(self).wf(),
            forall|n: Seq<char>|
                #[trigger] final(self).count_of(n) == if n == name@ && old(self).count_of(n) > 0 {
                    (old(self).count_of(n) - 1) as nat
                } else {
                    old(self).count_of(n)
                },
    {
        let ghost before = *self;
        let nc = chars_of(name);
        let mut k: usize = 0;
        let mut found = false;
        while k < self.entries.len() && !found
            invariant
                k <= self.entries@.len(),
                *self == before,
                nc@ == name@,
                forall|j: int| 0 <= j < k ==> (#[trigger] self.entries@[j]).name@ != name@,
                found ==> k < self.entries@.len() && self.entries@[k as int].name@ == name@,
            decreases self.entries.len() - k + if found {
                0int
            } else {
                1int
            },
        {
            let e = chars_of(self.entries[k].name.as_str());
            if chars_eq(e.as_slice(), nc.as_slice()) {
                found = true;
            } else {
                k = k + 1;
            }
        }
        if !found {
            proof {
                lemma_count_of_absent(before, name@);
            }
            return;
        }
        proof {
            lemma_count_of_at(before, k as int);
        }
        let c = self.entries[k].count;
        if c > 1 {
            let n = owned(self.entries[k].name.as_str());
            self.entries.set(k, NameCount { name: n, count: c - 1 });
            proof {
                assert forall|i: int, j: int|
                    0 <= i < j < self.entries@.len() implies (#[trigger] self.entries@[i]).name@
                    != (#[trigger] self.entries@[j]).name@ by {
                    assert(before.entries@[i].name@ != before.entries@[j].name@);
                }
                assert forall|n: Seq<char>|
                    #[trigger] self.count_of(n) == if n == name@ && before.count_of(n) > 0 {
                        (before.count_of(n) - 1) as nat
                    } else {
                        before.count_of(n)
                    } by {
                    if n == name@ {
                        lemma_count_of_at(*self, k as int);
                    } else if exists|w: int|
                        0 <= w < self.entries@.len() && (#[trigger] self.entries@[w]).name@ == n {
                        let w = choose|w: int|
                            0 <= w < self.entries@.len() && (#[trigger] self.entries@[w]).name@ == n;
                        lemma_count_of_at(*self, w);
                        assert(self.entries@[w] == before.entries@[w]);
                        lemma_count_of_at(before, w);
                    } else {
                        assert forall|w: int| 0 <= w < before.entries@.len() implies (
                        #[trigger] before.entries@[w]).name@ != n by {
                            assert(self.entries@[w].name@ == before.entries@[w].name@);
                        }
                    }
                }
            }
        } else {
            self.entries.remove(k);
            proof {
                assert(self.entries@ == before.entries@.remove(k as int));
                assert forall|i: int, j: int|
                    0 <= i < j < self.entries@.len() implies (#[trigger] self.entries@[i]).name@
                    != (#[trigger] self.entries@[j]).name@ by {
                    let bi = if i < k { i } else { i + 1 };
                    let bj = if j < k { j } else { j + 1 };
                    assert(self.entries@[i] == before.entries@[bi]);
                    assert(self.entries@[j] == before.entries@[bj]);
                    assert(before.entries@[bi].name@ != before.entries@[bj].name@);
                }
                assert forall|i: int| 0 <= i < self.entries@.len() implies (
                #[trigger] self.entries@[i]).count > 0 by {
                    let bi = if i < k { i } else { i + 1 };
                    assert(self.entries@[i] == before.entries@[bi]);
                }
                assert forall|n: Seq<char>|
                    #[trigger] self.count_of(n) == if n == name@ && before.count_of(n) > 0 {
                        (before.count_of(n) - 1) as nat
                    } else {
                        before.count_of(n)
                    } by {
                    if n == name@ {
                        assert forall|w: int| 0 <= w < self.entries@.len() implies (
                        #[trigger] self.entries@[w]).name@ != n by {
                            let bw = if w < k { w } else { w + 1 };
                            assert(self.entries@[w] == before.entries@[bw]);
                            if bw < k {
                                assert(before.entries@[bw].name@ != before.entries@[k as int].name@);
                            } else {
                                assert(before.entries@[k as int].name@ != before.entries@[bw].name@);
                            }
                        }
                        lemma_count_of_absent(*self, n);
                    } else if exists|w: int|
                        0 <= w < self.entries@.len() && (#[trigger] self.entries@[w]).name@ == n {
                        let w = choose|w: int|
                            0 <= w < self.entries@.len() && (#[trigger] self.entries@[w]).name@ == n;
                        lemma_count_of_at(*self, w);
                        let bw = if w < k { w } else { w + 1 };
                        assert(self.entries@[w] == before.entries@[bw]);
                        lemma_count_of_at(before, bw);
                    } else {
                        assert forall|w: int| 0 <= w < before.entries@.len() implies (
                        #[trigger] before.entries@[w]).name@ != n by {
                            if w < k {
                                assert(self.entries@[w] == before.entries@[w]);
                            } else if w > k {
                                assert(self.entries@[w - 1] == before.entries@[w]);
                            }
                        }
                    }
                }
            }
        }
    }
}

/// Name counts with their total.
#[derive(Debug, Clone, Eq, PartialEq)]
pub struct TestModulePrecedent {
    pub name_counts: NameCounts,
    pub total: usize,
}

impl TestModulePrecedent {
    /// No occurrence yet.
    pub fn empty() -> (p: TestModulePrecedent)
        ensures
            p.name_counts.wf(),
            p.total == 0,
            forall|n: Seq<char>| #[trigger] p.name_counts.count_of(n) == 0,
    {
        TestModulePrecedent { name_counts: NameCounts { entries: Vec::new() }, total: 0 }
    }

    /// One more occurrence of `name`.
    pub fn add(&mut self, name: &str)
        requires
            old(self).name_counts.wf(),
            old(self).total < usize::MAX,
            old(self).name_counts.count_of(name@) < usize::MAX,
        ensures
            final(self).name_counts.wf(),
            final(self).total == old(self).total + 1,
            forall|n: Seq<char>|
                #[trigger] final(self).name_counts.count_of(n) == old(self).name_counts.count_of(n)
                    + if n == name@ {
                    1nat
                } else {
                    0nat
                },
    {
        self.name_counts.increment(name);
        self.total = self.total + 1;
    }

    /// The precedent of a list of occurrences: each name's count and the total.
    pub fn from_occurrences(occurrences: &Vec<TestModuleOccurrence>) -> (p: TestModulePrecedent)
        ensures
            p.name_counts.wf(),
            p.total == occurrences@.len(),
            forall|n: Seq<char>|
                #[trigger] p.name_counts.count_of(n) == named(occurrences_view(occurrences@), n),
    {
        let ghost os = occurrences_view(occurrences@);
        let mut p = TestModulePrecedent::empty();
        let mut i: usize = 0;
        while i < occurrences.len()
            invariant
                i <= occurrences@.len(),
                os == occurrences_view(occurrences@),
                p.name_counts.wf(),
                p.total == i,
                forall|n: Seq<char>| #[trigger] p.name_counts.count_of(n) == named(os.take(i as int), n),
            decreases occurrences.len() - i,
        {
            let occ = &occurrences[i];
            proof {
                assert(os.take(i + 1).drop_last() =~= os.take(i as int));
                assert(os.take(i + 1).last() == occ@);
                lemma_named_bound(os.take(i as int), occ.name@);
            }
            p.add(occ.name.as_str());
            i = i + 1;
            assert forall|n: Seq<char>| #[trigger] p.name_counts.count_of(n) == named(
                os.take(i as int),
                n,
            ) by {
                assert(os.take(i as int).drop_last() =~= os.take(i - 1));
            }
        }
        assert(os.take(i as int) =~= os);
        p
    }

    /// Adds the test modules of one file's facts.
    pub fn add_test_modules(&mut self, facts: &RustFileFacts)
        requires
            old(self).name_counts.wf(),
            old(self).total + facts.test_modules@.len() <= usize::MAX,
            forall|n: Seq<char>|
                #[trigger] old(self).name_counts.count_of(n) + facts.test_modules@.len() <= usize::MAX,
        ensures
            final(self).name_counts.wf(),
            final(self).total == old(self).total + facts.test_modules@.len(),
            forall|n: Seq<char>|
                #[trigger] final(self).name_counts.count_of(n) == old(self).name_counts.count_of(n)
                    + facts_named(facts.test_modules@, n),
    {
        let ghost start = *self;
        let ghost fs = facts.test_modules@;
        let mut i: usize = 0;
        while i < facts.test_modules.len()
            invariant
                i <= fs.len(),
                fs == facts.test_modules@,
                start.name_counts.wf(),
                self.name_counts.wf(),
                start.total + fs.len() <= usize::MAX,
                forall|n: Seq<char>| #[trigger] start.name_counts.count_of(n) + fs.len() <= usize::MAX,
                self.total == start.total + i,
                forall|n: Seq<char>|
                    #[trigger] self.name_counts.count_of(n) == start.name_counts.count_of(n)
                        + facts_named(fs.take(i as int), n),
            decreases fs.len() - i,
        {
            let f = &facts.test_modules[i];
            proof {
                assert(fs.take(i + 1).drop_last() =~= fs.take(i as int));
                assert(fs.take(i + 1).last() == *f);
                lemma_facts_named_bound(fs.take(i as int), f.name@);
                assert(start.name_counts.count_of(f.name@) + fs.len() <= usize::MAX);
            }
            self.add(f.name.as_str());
            i = i + 1;
            assert forall|n: Seq<char>| #[trigger] self.name_counts.count_of(n) == start.name_counts.count_of(n)
                + facts_named(fs.take(i as int), n) by {
                assert(fs.take(i as int).drop_last() =~= fs.take(i - 1));
            }
        }
        assert(fs.take(i as int) =~= fs);
    }

    /// Adds another scope's counts: each name's count, and the total by
    /// each of them.
    pub fn merge(&mut self, other: &TestModulePrecedent)
        requires
            old(self).name_counts.wf(),
            other.name_counts.wf(),
            old(self).total + entries_total(other.name_counts.entries@) <= usize::MAX,
            forall|n: Seq<char>|
                #[trigger] old(self).name_counts.count_of(n) + other.name_counts.count_of(n) <= usize::MAX,
        ensures
            final(self).name_counts.wf(),
            final(self).total == old(self).total + entries_total(other.name_counts.entries@),
            forall|n: Seq<char>|
                #[trigger] final(self).name_counts.count_of(n) == old(self).name_counts.count_of(n)
                    + other.name_counts.count_of(n),
    {
        let ghost start = *self;
        let ghost es = other.name_counts.entries@;
        let mut i: usize = 0;
        while i < other.name_counts.entries.len()
            invariant
                i <= es.len(),
                es == other.name_counts.entries@,
                other.name_counts.wf(),
                start.name_counts.wf(),
                self.name_counts.wf(),
                start.total + entries_total(es) <= usize::MAX,
                forall|n: Seq<char>|
                    #[trigger] start.name_counts.count_of(n) + other.name_counts.count_of(n) <= usize::MAX,
                self.total == start.total + entries_total(es.take(i as int)),
                forall|n: Seq<char>|
                    #[trigger] self.name_counts.count_of(n) == start.name_counts.count_of(n)
                        + entries_count(es.take(i as int), n),
            decreases es.len() - i,
        {
            let e = &other.name_counts.entries[i];
            proof {
                assert(es.take(i + 1).drop_last() =~= es.take(i as int));
                assert(es.take(i + 1).last() == *e);
                lemma_entries_total_prefix(es, i + 1);
                lemma_entries_count_prefix(other.name_counts, i as int, e.name@);
                lemma_count_of_at(other.name_counts, i as int);
            }
            self.name_counts.increase(e.name.as_str(), e.count);
            self.total = self.total + e.count;
            i = i + 1;
            assert forall|n: Seq<char>| #[trigger] self.name_counts.count_of(n) == start.name_counts.count_of(n)
                + entries_count(es.take(i as int), n) by {
                assert(es.take(i as int).drop_last() =~= es.take(i - 1));
            }
        }
        proof {
            assert(es.take(i as int) =~= es);
            assert forall|n: Seq<char>| #[trigger] self.name_counts.count_of(n) == start.name_counts.count_of(n)
                + other.name_counts.count_of(n) by {
                lemma_entries_count_is_count_of(other.name_counts, n);
            }
        }
    }

    /// The counts and total without one occurrence named `target_name`; other
    /// occurrences of that name stay counted.
    pub fn excluding(&self, target_name: &str) -> (r: (NameCounts, usize))
        requires
            self.name_counts.wf(),
        ensures
            r.0.wf(),
            forall|n: Seq<char>|
                #[trigger] r.0.count_of(n) == if n == target_name@ && self.name_counts.count_of(n) > 0 {
                    (self.name_counts.count_of(n) - 1) as nat
                } else {
                    self.name_counts.count_of(n)
                },
            r.1 == if self.total > 0 {
                self.total - 1
            } else {
                0
            },
    {
        let mut counts = copy_counts(&self.name_counts);
        counts.decrement(target_name);
        (counts, self.total.saturating_sub(1))
    }
}

fn copy_counts(c: &NameCounts) -> (r: NameCounts)
    requires
        c.wf(),
    ensures
        r.wf(),
        r.entries@.len() == c.entries@.len(),
        forall|k: int|
            0 <= k < c.entries@.len() ==> (#[trigger] r.entries@[k]).name@ == c.entries@[k].name@
                && r.entries@[k].count == c.entries@[k].count,
        forall|n: Seq<char>| #[trigger] r.count_of(n) == c.count_of(n),
{
    let mut entries: Vec<NameCount> = Vec::new();
    let mut i: usize = 0;
    while i < c.entries.len()
        invariant
            i <= c.entries@.len(),
            entries@.len() == i,
            forall|k: int|
                0 <= k < i ==> (#[trigger] entries@[k]).name@ == c.entries@[k].name@
                    && entries@[k].count == c.entries@[k].count,
        decreases c.entries.len() - i,
    {
        entries.push(NameCount { name: owned(c.entries[i].name.as_str()), count: c.entries[i].count });
        i = i + 1;
    }
    let r = NameCounts { entries };
    assert forall|a: int, b: int| 0 <= a < b < r.entries@.len() implies (#[trigger] r.entries@[a]).name@
        != (#[trigger] r.entries@[b]).name@ by {
        assert(c.entries@[a].name@ != c.entries@[b].name@);
    }
    assert forall|n: Seq<char>| #[trigger] r.count_of(n) == c.count_of(n) by {
        if exists|w: int| 0 <= w < r.entries@.len() && (#[trigger] r.entries@[w]).name@ == n {
            let w = choose|w: int| 0 <= w < r.entries@.len() && (#[trigger] r.entries@[w]).name@ == n;
            lemma_count_of_at(r, w);
            lemma_count_of_at(*c, w);
        } else {
            assert forall|w: int| 0 <= w < c.entries@.len() implies (#[trigger] c.entries@[w]).name@ != n by {
                assert(r.entries@[w].name@ == c.entries@[w].name@);
            }
        }
    }
    r
}

/// How many of the facts carry `name`.
pub open spec fn facts_named(fs: Seq<NamedRustFact>, name: Seq<char>) -> nat
    decreases fs.len(),
{
    if fs.len() == 0 {
        0
    } else {
        facts_named(fs.drop_last(), name) + if fs.last().name@ == name {
            1nat
        } else {
            0nat
        }
    }
}

proof fn lemma_facts_named_bound(fs: Seq<NamedRustFact>, name: Seq<char>)
    ensures
        facts_named(fs, name) <= fs.len(),
    decreases fs.len(),
{
    if fs.len() > 0 {
        lemma_facts_named_bound(fs.drop_last(), name);
    }
}

/// The sum of the recorded counts.
pub open spec fn entries_total(es: Seq<NameCount>) -> nat
    decreases es.len(),
{
    if es.len() == 0 {
        0
    } else {
        entries_total(es.drop_last()) + es.last().count as nat
    }
}

/// The count the entries record for `name`, summed over its entries.
pub open spec fn entries_count(es: Seq<NameCount>, name: Seq<char>) -> nat
    decreases es.len(),
{
    if es.len() == 0 {
        0
    } else {
        entries_count(es.drop_last(), name) + if es.last().name@ == name {
            es.last().count as nat
        } else {
            0nat
        }
    }
}

proof fn lemma_entries_total_prefix(es: Seq<NameCount>, k: int)
    requires
        0 <= k <= es.len(),
    ensures
        entries_total(es.take(k)) <= entries_total(es),
    decreases es.len() - k,
{
    if k < es.len() {
        lemma_entries_total_prefix(es, k + 1);
        assert(es.take(k + 1).drop_last() =~= es.take(k));
    } else {
        assert(es.take(k) =~= es);
    }
}

/// Before entry `i`, no earlier entry carries its name.
proof fn lemma_entries_count_prefix(c: NameCounts, i: int, name: Seq<char>)
    requires
        c.wf(),
        0 <= i < c.entries@.len(),
        c.entries@[i].name@ == name,
    ensures
        entries_count(c.entries@.take(i), name) == 0,
{
    lemma_entries_count_absent(c.entries@.take(i), name);
    assert forall|w: int| 0 <= w < c.entries@.take(i).len() implies (#[trigger] c.entries@.take(i)[w]).name@
        != name by {
        assert(c.entries@[w].name@ != c.entries@[i].name@);
    }
}

proof fn lemma_entries_count_absent(es: Seq<NameCount>, name: Seq<char>)
    ensures
        (forall|w: int| 0 <= w < es.len() ==> (#[trigger] es[w]).name@ != name) ==> entries_count(es, name)
            == 0,
    decreases es.len(),
{
    if es.len() > 0 {
        lemma_entries_count_absent(es.drop_last(), name);
        if forall|w: int| 0 <= w < es.len() ==> (#[trigger] es[w]).name@ != name {
            assert forall|w: int| 0 <= w < es.drop_last().len() implies (#[trigger] es.drop_last()[w]).name@
                != name by {
                assert(es.drop_last()[w] == es[w]);
            }
            assert(es[es.len() - 1].name@ != name);
        }
    }
}

/// With distinct names, the summed count is the recorded count.
proof fn lemma_entries_count_is_count_of(c: NameCounts, name: Seq<char>)
    requires
        c.wf(),
    ensures
        entries_count(c.entries@, name) == c.count_of(name),
{
    let es = c.entries@;
    if exists|w: int| 0 <= w < es.len() && (#[trigger] es[w]).name@ == name {
        let w = choose|w: int| 0 <= w < es.len() && (#[trigger] es[w]).name@ == name;
        lemma_count_of_at(c, w);
        lemma_entries_count_single(es, w, name);
    } else {
        lemma_entries_count_absent(es, name);
    }
}

proof fn lemma_entries_count_single(es: Seq<NameCount>, w: int, name: Seq<char>)
    requires
        0 <= w < es.len(),
        es[w].name@ == name,
        forall|i: int, j: int| 0 <= i < j < es.len() ==> (#[trigger] es[i]).name@ != (#[trigger] es[j]).name@,
    ensures
        entries_count(es, name) == es[w].count,
    decreases es.len(),
{
    let last = es.len() - 1;
    if w == last {
        lemma_entries_count_absent(es.drop_last(), name);
        assert forall|k: int| 0 <= k < es.drop_last().len() implies (#[trigger] es.drop_last()[k]).name@
            != name by {
            assert(es[k].name@ != es[last].name@);
        }
    } else {
        assert(es[w].name@ != es[last].name@);
        assert forall|i: int, j: int| 0 <= i < j < es.drop_last().len() implies (
        #[trigger] es.drop_last()[i]).name@ != (#[trigger] es.drop_last()[j]).name@ by {
            assert(es[i].name@ != es[j].name@);
        }
        assert(es.drop_last()[w] == es[w]);
        lemma_entries_count_single(es.drop_last(), w, name);
    }
}

proof fn lemma_named_bound(os: Seq<OccurrenceSpec>, name: Seq<char>)
    ensures
        named(os, name) <= os.len(),
    decreases os.len(),
{
    if os.len() > 0 {
        lemma_named_bound(os.drop_last(), name);
    }
}

} // verus!
