//! Per-path sets of added new-file line numbers, stored as canonical
//! (sorted, disjoint, non-adjacent) inclusive ranges.
use vstd::prelude::*;

use crate::text::{chars_eq, chars_of};

verus! {

#[derive(Debug, Clone, Copy, Eq, PartialEq, Structural)]
pub struct LineRange {
    pub start: usize,
    pub end: usize,
}

#[derive(Debug, Clone, Eq, PartialEq)]
pub struct PathRanges {
    pub path: String,
    pub ranges: Vec<LineRange>,
}

/// Added lines per path. Each path appears once; its ranges are canonical.
#[derive(Debug, Clone, Default, Eq, PartialEq)]
pub struct ChangedLines {
    pub by_path: Vec<PathRanges>,
}

/// Ranges are ordered, each non-empty, and separated by at least one
/// uncovered line, so that one set of lines has exactly one representation.
pub open spec fn canonical(rs: Seq<LineRange>) -> bool {
    &&& forall|i: int| 0 <= i < rs.len() ==> (#[trigger] rs[i]).start <= rs[i].end
    &&& forall|i: int, j: int|
        0 <= i < j < rs.len() ==> (#[trigger] rs[i]).end + 1 < (#[trigger] rs[j]).start
}

/// `line` lies in one of the ranges.
pub open spec fn covers(rs: Seq<LineRange>, line: int) -> bool {
    exists|i: int| 0 <= i < rs.len() && (#[trigger] rs[i]).start <= line <= rs[i].end
}

/// Number of ranges stored over all the entries.
pub open spec fn total_ranges(ps: Seq<PathRanges>) -> nat
    decreases ps.len(),
{
    if ps.len() == 0 {
        0
    } else {
        total_ranges(ps.drop_last()) + ps.last().ranges@.len()
    }
}

/// With distinct paths, the ranges recorded for the path of entry `i` are
/// that entry's ranges.
pub proof fn lemma_path_ranges_at(c: ChangedLines, i: int)
    requires
        c.wf(),
        0 <= i < c.by_path@.len(),
    ensures
        c.path_ranges(c.by_path@[i].path@) == c.by_path@[i].ranges@,
{
    let p = c.by_path@[i].path@;
    assert(0 <= i < c.by_path@.len() && c.by_path@[i].path@ == p);
    let k = choose|k: int| 0 <= k < c.by_path@.len() && (#[trigger] c.by_path@[k]).path@ == p;
    if k < i {
        assert(c.by_path@[k].path@ != c.by_path@[i].path@);
    } else if k > i {
        assert(c.by_path@[i].path@ != c.by_path@[k].path@);
    }
}

impl ChangedLines {
    /// Paths are distinct and every range list is canonical.
    pub open spec fn wf(&self) -> bool {
        &&& forall|i: int, j: int|
            0 <= i < j < self.by_path@.len() ==> (#[trigger] self.by_path@[i]).path@
                != (#[trigger] self.by_path@[j]).path@
        &&& forall|i: int|
            0 <= i < self.by_path@.len() ==> canonical((#[trigger] self.by_path@[i]).ranges@)
    }

    /// The line `line` of `path` was recorded as added.
    pub open spec fn has_line(&self, path: Seq<char>, line: int) -> bool {
        exists|i: int|
            0 <= i < self.by_path@.len() && (#[trigger] self.by_path@[i]).path@ == path && covers(
                self.by_path@[i].ranges@,
                line,
            )
    }

    /// The ranges recorded for `path`; empty when it has no entry.
    pub open spec fn path_ranges(&self, path: Seq<char>) -> Seq<LineRange> {
        if exists|i: int| 0 <= i < self.by_path@.len() && (#[trigger] self.by_path@[i]).path@ == path {
            self.by_path@[choose|i: int|
                0 <= i < self.by_path@.len() && (#[trigger] self.by_path@[i]).path@ == path].ranges@
        } else {
            Seq::empty()
        }
    }

    /// The paths that have an entry, in the order they were first recorded.
    pub open spec fn paths(&self) -> Seq<Seq<char>> {
        self.by_path@.map_values(|p: PathRanges| p.path@)
    }

    pub fn new() -> (c: ChangedLines)
        ensures
            c.wf(),
            c.by_path@.len() == 0,
            forall|p: Seq<char>, l: int| !c.has_line(p, l),
    {
        ChangedLines { by_path: Vec::new() }
    }

    fn find_path(&self, path: &[char]) -> (r: Option<usize>)
        ensures
            match r {
                Some(i) => i < self.by_path@.len() && self.by_path@[i as int].path@ == path@,
                None => forall|i: int|
                    0 <= i < self.by_path@.len() ==> (#[trigger] self.by_path@[i]).path@ != path@,
            },
    {
        let mut i: usize = 0;
        while i < self.by_path.len()
            invariant
                i <= self.by_path@.len(),
                forall|j: int| 0 <= j < i ==> (#[trigger] self.by_path@[j]).path@ != path@,
            decreases self.by_path.len() - i,
        {
            let p = chars_of(self.by_path[i].path.as_str());
            if chars_eq(p.as_slice(), path) {
                return Some(i);
            }
            i = i + 1;
        }
        None
    }

    /// Records one added new-file line. Lines usually arrive in ascending
    /// order per path (Git streams hunks that way); contiguous and adjacent
    /// lines merge into one inclusive range so storage stays proportional to
    /// hunks rather than to added lines. Lines in any other order are merged
    /// into place as well.
    pub fn insert(&mut self, path: &str, line: usize)
        requires
            old(self).wf(),
        ensures
            final(self).wf(),
            forall|p: Seq<char>, l: int|
                #[trigger] final(self).has_line(p, l) == (old(self).has_line(p, l) || (p == path@
                    && l == line)),
            final(self).paths() == (if old(self).paths().contains(path@) {
                old(self).paths()
            } else {
                old(self).paths().push(path@)
            }),
            final(self).path_ranges(path@).len() <= old(self).path_ranges(path@).len() + 1,
            old(self).path_ranges(path@).len() == 0 || old(self).path_ranges(path@).last().end + 1
                < line ==> final(self).path_ranges(path@) == old(self).path_ranges(path@).push(
                LineRange { start: line, end: line },
            ),
            old(self).path_ranges(path@).len() > 0 && old(self).path_ranges(path@).last().end
                <= line <= old(self).path_ranges(path@).last().end + 1 ==> final(self).path_ranges(
                path@,
            ).len() == old(self).path_ranges(path@).len(),
            forall|p: Seq<char>|
                p != path@ ==> #[trigger] final(self).path_ranges(p) == old(self).path_ranges(p),
    {
        let pc = chars_of(path);
        match self.find_path(pc.as_slice()) {
            Some(i) => {
                let ghost old_by_path = self.by_path@;
                let mut entry = self.by_path.remove(i);
                let ghost old_ranges = entry.ranges@;
                insert_line(&mut entry.ranges, line);
                self.by_path.insert(i, entry);
                proof {
                    assert(self.by_path@ == old_by_path.update(i as int, self.by_path@[i as int]));
                    assert forall|p: Seq<char>, l: int|
                        #[trigger] self.has_line(p, l) == (old(self).has_line(p, l) || (p == path@
                            && l == line)) by {
                        if self.has_line(p, l) {
                            let k = choose|k: int|
                                0 <= k < self.by_path@.len() && (#[trigger] self.by_path@[k]).path@
                                    == p && covers(self.by_path@[k].ranges@, l);
                            if k != i {
                                assert(old_by_path[k] == self.by_path@[k]);
                            }
                        }
                        if old(self).has_line(p, l) {
                            let k = choose|k: int|
                                0 <= k < old_by_path.len() && (#[trigger] old_by_path[k]).path@ == p
                                    && covers(old_by_path[k].ranges@, l);
                            if k != i {
                                assert(old_by_path[k] == self.by_path@[k]);
                            }
                        }
                        if p == path@ && l == line {
                            assert(self.by_path@[i as int].path@ == p);
                        }
                    }
                    assert(self.paths() =~= old(self).paths());
                    assert(old(self).paths()[i as int] == path@);
                    lemma_path_ranges_at(*old(self), i as int);
                    lemma_path_ranges_at(*self, i as int);
                    assert forall|p: Seq<char>| p != path@ implies #[trigger] self.path_ranges(p)
                        == old(self).path_ranges(p) by {
                        if exists|k: int|
                            0 <= k < self.by_path@.len() && (#[trigger] self.by_path@[k]).path@ == p {
                            let k = choose|k: int|
                                0 <= k < self.by_path@.len() && (#[trigger] self.by_path@[k]).path@
                                    == p;
                            assert(k != i);
                            assert(old_by_path[k] == self.by_path@[k]);
                            lemma_path_ranges_at(*old(self), k);
                            lemma_path_ranges_at(*self, k);
                        } else {
                            assert forall|k: int| 0 <= k < old_by_path.len() implies (
                            #[trigger] old_by_path[k]).path@ != p by {
                                if k != i {
                                    assert(old_by_path[k] == self.by_path@[k]);
                                }
                            }
                        }
                    }
                }
            },
            None => {
                let mut ranges: Vec<LineRange> = Vec::new();
                ranges.push(LineRange { start: line, end: line });
                let ghost old_by_path = self.by_path@;
                self.by_path.push(PathRanges { path: crate::text::string_of(pc.as_slice()), ranges });
                proof {
                    let n = old_by_path.len() as int;
                    assert(self.by_path@[n].ranges@[0].start <= line <= self.by_path@[n].ranges@[0].end);
                    assert(covers(self.by_path@[n].ranges@, line as int));
                    assert forall|p: Seq<char>, l: int|
                        #[trigger] self.has_line(p, l) == (old(self).has_line(p, l) || (p == path@
                            && l == line)) by {
                        if self.has_line(p, l) {
                            let k = choose|k: int|
                                0 <= k < self.by_path@.len() && (#[trigger] self.by_path@[k]).path@
                                    == p && covers(self.by_path@[k].ranges@, l);
                            if k < n {
                                assert(old_by_path[k] == self.by_path@[k]);
                            } else {
                                let r = choose|r: int|
                                    0 <= r < self.by_path@[k].ranges@.len() && (#[trigger] self.by_path@[k].ranges@[r]).start
                                        <= l <= self.by_path@[k].ranges@[r].end;
                                assert(r == 0);
                            }
                        }
                        if old(self).has_line(p, l) {
                            let k = choose|k: int|
                                0 <= k < old_by_path.len() && (#[trigger] old_by_path[k]).path@ == p
                                    && covers(old_by_path[k].ranges@, l);
                            assert(old_by_path[k] == self.by_path@[k]);
                        }
                        if p == path@ && l == line {
                            assert(self.by_path@[n].path@ == p);
                        }
                    }
                    assert(self.paths() =~= old(self).paths().push(path@));
                    assert(!old(self).paths().contains(path@)) by {
                        if old(self).paths().contains(path@) {
                            let k = choose|k: int|
                                0 <= k < old(self).paths().len() && old(self).paths()[k] == path@;
                            assert(old_by_path[k].path@ == path@);
                        }
                    }
                    lemma_path_ranges_at(*self, n);
                    assert(self.by_path@[n].ranges@ =~= seq![LineRange { start: line, end: line }]);
                    assert(old(self).path_ranges(path@) == Seq::<LineRange>::empty());
                    assert forall|p: Seq<char>| p != path@ implies #[trigger] self.path_ranges(p)
                        == old(self).path_ranges(p) by {
                        if exists|k: int|
                            0 <= k < self.by_path@.len() && (#[trigger] self.by_path@[k]).path@ == p {
                            let k = choose|k: int|
                                0 <= k < self.by_path@.len() && (#[trigger] self.by_path@[k]).path@
                                    == p;
                            assert(k < n);
                            assert(old_by_path[k] == self.by_path@[k]);
                            lemma_path_ranges_at(*old(self), k);
                            lemma_path_ranges_at(*self, k);
                        } else {
                            assert forall|k: int| 0 <= k < old_by_path.len() implies (
                            #[trigger] old_by_path[k]).path@ != p by {
                                assert(old_by_path[k] == self.by_path@[k]);
                            }
                        }
                    }
                }
            },
        }
    }

    /// Whether `line` of `path` was recorded as added. Binary search over the
    /// path's sorted ranges.
    pub fn contains(&self, path: &str, line: usize) -> (r: bool)
        requires
            self.wf(),
        ensures
            r == self.has_line(path@, line as int),
    {
        let pc = chars_of(path);
        match self.find_path(pc.as_slice()) {
            Some(i) => {
                let r = range_covers(&self.by_path[i].ranges, line);
                proof {
                    if self.has_line(path@, line as int) {
                        let k = choose|k: int|
                            0 <= k < self.by_path@.len() && (#[trigger] self.by_path@[k]).path@
                                == path@ && covers(self.by_path@[k].ranges@, line as int);
                        if k != i {
                            if k < i {
                                assert(self.by_path@[k].path@ != self.by_path@[i as int].path@);
                            } else {
                                assert(self.by_path@[i as int].path@ != self.by_path@[k].path@);
                            }
                        }
                    }
                }
                r
            },
            None => false,
        }
    }

    /// Number of stored ranges for `path`; zero when the path has no entry.
    pub fn range_count(&self, path: &str) -> (n: usize)
        ensures
            (exists|i: int|
                0 <= i < self.by_path@.len() && (#[trigger] self.by_path@[i]).path@ == path@
                    && self.by_path@[i].ranges@.len() == n) || (n == 0 && !self.paths().contains(
                path@,
            )),
    {
        let pc = chars_of(path);
        match self.find_path(pc.as_slice()) {
            Some(i) => self.by_path[i].ranges.len(),
            None => {
                proof {
                    if self.paths().contains(path@) {
                        let k = choose|k: int| 0 <= k < self.paths().len() && self.paths()[k] == path@;
                        assert(self.by_path@[k].path@ == path@);
                    }
                }
                0
            },
        }
    }

    /// Number of stored ranges over all paths (saturating at `usize::MAX`).
    pub fn total_range_entries(&self) -> (n: usize)
        ensures
            n == (if total_ranges(self.by_path@) <= usize::MAX {
                total_ranges(self.by_path@)
            } else {
                usize::MAX as nat
            }),
    {
        let mut n: usize = 0;
        let mut i: usize = 0;
        while i < self.by_path.len()
            invariant
                i <= self.by_path@.len(),
                n == (if total_ranges(self.by_path@.take(i as int)) <= usize::MAX {
                    total_ranges(self.by_path@.take(i as int))
                } else {
                    usize::MAX as nat
                }),
            decreases self.by_path.len() - i,
        {
            assert(self.by_path@.take(i + 1).drop_last() == self.by_path@.take(i as int));
            n = n.saturating_add(self.by_path[i].ranges.len());
            i = i + 1;
        }
        assert(self.by_path@.take(i as int) == self.by_path@);
        n
    }

    /// Whether `path` has any entry.
    pub fn has_path(&self, path: &str) -> (r: bool)
        ensures
            r == self.paths().contains(path@),
    {
        let pc = chars_of(path);
        let found = self.find_path(pc.as_slice());
        proof {
            if self.paths().contains(path@) {
                let k = choose|k: int| 0 <= k < self.paths().len() && self.paths()[k] == path@;
                assert(self.by_path@[k].path@ == path@);
            }
            if let Some(i) = found {
                assert(self.paths()[i as int] == path@);
            }
        }
        found.is_some()
    }
}

/// Whether one of the canonical ranges covers `line`.
pub fn range_covers(ranges: &Vec<LineRange>, line: usize) -> (r: bool)
    requires
        canonical(ranges@),
    ensures
        r == covers(ranges@, line as int),
{
    // First index whose range ends at or after `line`.
    let mut lo: usize = 0;
    let mut hi: usize = ranges.len();
    while lo < hi
        invariant
            0 <= lo <= hi <= ranges.len(),
            canonical(ranges@),
            forall|j: int| 0 <= j < lo ==> (#[trigger] ranges@[j]).end < line,
            forall|j: int| hi <= j < ranges.len() ==> (#[trigger] ranges@[j]).end >= line,
        decreases hi - lo,
    {
        let mid = lo + (hi - lo) / 2;
        if ranges[mid].end < line {
            proof {
                assert forall|j: int| 0 <= j <= mid implies (#[trigger] ranges@[j]).end < line by {
                    if j < mid {
                        assert(ranges@[j].end + 1 < ranges@[mid as int].start);
                    }
                }
            }
            lo = mid + 1;
        } else {
            hi = mid;
        }
    }
    let r = lo < ranges.len() && ranges[lo].start <= line;
    proof {
        if covers(ranges@, line as int) {
            let k = choose|k: int|
                0 <= k < ranges@.len() && (#[trigger] ranges@[k]).start <= line <= ranges@[k].end;
            if k > lo {
                assert(ranges@[lo as int].end + 1 < ranges@[k].start);
            }
        }
    }
    r
}

/// First index whose range reaches `line - 1` or beyond. Checking the last
/// range first keeps ascending input constant-time.
fn insert_position(ranges: &Vec<LineRange>, line: usize) -> (i: usize)
    requires
        canonical(ranges@),
    ensures
        i <= ranges@.len(),
        forall|j: int| 0 <= j < i ==> (#[trigger] ranges@[j]).end + 1 < line,
        forall|j: int| i <= j < ranges@.len() ==> (#[trigger] ranges@[j]).end + 1 >= line,
{
    let n = ranges.len();
    if n == 0 {
        return 0;
    }
    if ranges[n - 1].end < line && line - ranges[n - 1].end > 1 {
        proof {
            assert forall|j: int| 0 <= j < n implies (#[trigger] ranges@[j]).end + 1 < line by {
                if j < n - 1 {
                    assert(ranges@[j].end + 1 < ranges@[n - 1].start);
                }
            }
        }
        return n;
    }
    let mut lo: usize = 0;
    let mut hi: usize = n;
    while lo < hi
        invariant
            0 <= lo <= hi <= n,
            n == ranges@.len(),
            canonical(ranges@),
            forall|j: int| 0 <= j < lo ==> (#[trigger] ranges@[j]).end + 1 < line,
            forall|j: int| hi <= j < n ==> (#[trigger] ranges@[j]).end + 1 >= line,
        decreases hi - lo,
    {
        let mid = lo + (hi - lo) / 2;
        if ranges[mid].end < line && line - ranges[mid].end > 1 {
            proof {
                assert forall|j: int| 0 <= j <= mid implies (#[trigger] ranges@[j]).end + 1 < line by {
                    if j < mid {
                        assert(ranges@[j].end + 1 < ranges@[mid as int].start);
                    }
                }
            }
            lo = mid + 1;
        } else {
            hi = mid;
        }
    }
    lo
}

/// Adds `line` to a canonical range list, merging with neighbours.
pub fn insert_line(ranges: &mut Vec<LineRange>, line: usize)
    requires
        canonical(old(ranges)@),
    ensures
        canonical(final(ranges)@),
        forall|l: int| #[trigger] covers(final(ranges)@, l) == (covers(old(ranges)@, l) || l == line),
        final(ranges)@.len() <= old(ranges)@.len() + 1,
        old(ranges)@.len() == 0 || old(ranges)@.last().end + 1 < line ==> final(ranges)@ == old(
            ranges,
        )@.push(LineRange { start: line, end: line }),
        old(ranges)@.len() > 0 && old(ranges)@.last().end <= line <= old(ranges)@.last().end + 1
            ==> final(ranges)@.len() == old(ranges)@.len(),
{
    let i = insert_position(ranges, line);
    let n = ranges.len();
    proof {
        if n > 0 && ranges@[n - 1].end + 1 < line {
            assert(i == n);
        }
        if n > 0 && ranges@[n - 1].end <= line {
            assert forall|j: int| 0 <= j < n - 1 implies (#[trigger] ranges@[j]).end + 1 < line by {
                assert(ranges@[j].end + 1 < ranges@[n - 1].start);
            }
        }
    }
    if i == n {
        append_line(ranges, line);
    } else if ranges[i].start <= line {
        if line <= ranges[i].end {
            proof {
                assert(ranges@[i as int].start <= line <= ranges@[i as int].end);
            }
        } else if i + 1 < n && ranges[i + 1].start - line == 1 {
            extend_and_merge(ranges, i, line);
        } else {
            extend_end(ranges, i, line);
        }
    } else if ranges[i].start - line == 1 {
        extend_start(ranges, i, line);
    } else {
        insert_new(ranges, i, line);
    }
}

fn append_line(ranges: &mut Vec<LineRange>, line: usize)
    requires
        canonical(old(ranges)@),
        forall|j: int| 0 <= j < old(ranges)@.len() ==> (#[trigger] old(ranges)@[j]).end + 1 < line,
    ensures
        canonical(final(ranges)@),
        forall|l: int| #[trigger] covers(final(ranges)@, l) == (covers(old(ranges)@, l) || l == line),
        final(ranges)@ == old(ranges)@.push(LineRange { start: line, end: line }),
{
    let ghost old_rs = ranges@;
    let n = ranges.len();
        ranges.push(LineRange { start: line, end: line });
        proof {
            let rs = ranges@;
            assert forall|l: int| #[trigger] covers(rs, l) == (covers(old_rs, l) || l == line) by {
                if covers(rs, l) {
                    let k = choose|k: int| 0 <= k < rs.len() && (#[trigger] rs[k]).start <= l <= rs[k].end;
                    if k < n {
                        assert(rs[k] == old_rs[k]);
                    }
                }
                if covers(old_rs, l) {
                    let k = choose|k: int|
                        0 <= k < old_rs.len() && (#[trigger] old_rs[k]).start <= l <= old_rs[k].end;
                    assert(rs[k] == old_rs[k]);
                }
                if l == line {
                    assert(rs[n as int].start <= l <= rs[n as int].end);
                }
            }
        }
}

fn extend_and_merge(ranges: &mut Vec<LineRange>, i: usize, line: usize)
    requires
        canonical(old(ranges)@),
        i < old(ranges)@.len(),
        forall|j: int| 0 <= j < i ==> (#[trigger] old(ranges)@[j]).end + 1 < line,
        forall|j: int| i <= j < old(ranges)@.len() ==> (#[trigger] old(ranges)@[j]).end + 1 >= line,
        old(ranges)@[i as int].end + 1 == line,
        i + 1 < old(ranges)@.len(),
        old(ranges)@[i + 1].start == line + 1,
    ensures
        canonical(final(ranges)@),
        forall|l: int| #[trigger] covers(final(ranges)@, l) == (covers(old(ranges)@, l) || l == line),
        final(ranges)@.len() + 1 == old(ranges)@.len(),
{
    let ghost old_rs = ranges@;
    let n = ranges.len();
    let r = ranges[i];
            let next = ranges[i + 1];
            ranges.set(i, LineRange { start: r.start, end: next.end });
            ranges.remove(i + 1);
            proof {
                let rs = ranges@;
                assert(rs.len() == n - 1);
                assert forall|j: int| 0 <= j < rs.len() implies #[trigger] rs[j] == (if j < i {
                    old_rs[j]
                } else if j == i {
                    LineRange { start: r.start, end: next.end }
                } else {
                    old_rs[j + 1]
                }) by {}
                assert forall|a: int, b: int| 0 <= a < b < rs.len() implies (#[trigger] rs[a]).end + 1
                    < (#[trigger] rs[b]).start by {
                    if a < i && b == i {
                        assert(old_rs[a].end + 1 < old_rs[i as int].start);
                    } else if a == i {
                        assert(old_rs[i + 1].end + 1 < old_rs[b + 1].start);
                    } else if a < i {
                        assert(old_rs[a].end + 1 < old_rs[b + 1].start);
                    } else {
                        assert(old_rs[a + 1].end + 1 < old_rs[b + 1].start);
                    }
                }
                assert forall|l: int| #[trigger] covers(rs, l) == (covers(old_rs, l) || l == line) by {
                    if covers(rs, l) {
                        let k = choose|k: int| 0 <= k < rs.len() && (#[trigger] rs[k]).start <= l <= rs[k].end;
                        if k < i {
                            assert(old_rs[k].start <= l <= old_rs[k].end);
                        } else if k == i {
                            if l <= r.end {
                                assert(old_rs[i as int].start <= l <= old_rs[i as int].end);
                            } else if l > line {
                                assert(old_rs[i + 1].start <= l <= old_rs[i + 1].end);
                            }
                        } else {
                            assert(old_rs[k + 1].start <= l <= old_rs[k + 1].end);
                        }
                    }
                    if covers(old_rs, l) {
                        let k = choose|k: int|
                            0 <= k < old_rs.len() && (#[trigger] old_rs[k]).start <= l <= old_rs[k].end;
                        if k < i {
                            assert(rs[k].start <= l <= rs[k].end);
                        } else if k == i || k == i + 1 {
                            assert(rs[i as int].start <= l <= rs[i as int].end);
                        } else {
                            assert(rs[k - 1].start <= l <= rs[k - 1].end);
                        }
                    }
                    if l == line {
                        assert(rs[i as int].start <= l <= rs[i as int].end);
                    }
                }
            }
}

fn extend_end(ranges: &mut Vec<LineRange>, i: usize, line: usize)
    requires
        canonical(old(ranges)@),
        i < old(ranges)@.len(),
        forall|j: int| 0 <= j < i ==> (#[trigger] old(ranges)@[j]).end + 1 < line,
        forall|j: int| i <= j < old(ranges)@.len() ==> (#[trigger] old(ranges)@[j]).end + 1 >= line,
        old(ranges)@[i as int].end + 1 == line,
        i + 1 < old(ranges)@.len() ==> old(ranges)@[i + 1].start != line + 1,
    ensures
        canonical(final(ranges)@),
        forall|l: int| #[trigger] covers(final(ranges)@, l) == (covers(old(ranges)@, l) || l == line),
        final(ranges)@.len() == old(ranges)@.len(),
{
    let ghost old_rs = ranges@;
    let n = ranges.len();
    let r = ranges[i];
            ranges.set(i, LineRange { start: r.start, end: line });
            proof {
                let rs = ranges@;
                assert forall|a: int, b: int| 0 <= a < b < rs.len() implies (#[trigger] rs[a]).end + 1
                    < (#[trigger] rs[b]).start by {
                    assert(old_rs[a].end + 1 < old_rs[b].start);
                    if a == i {
                        if b == i + 1 {
                            assert(old_rs[b].start > old_rs[a].end + 1);
                        } else {
                            assert(old_rs[i + 1].end + 1 < old_rs[b].start);
                            assert(old_rs[i + 1].start <= old_rs[i + 1].end);
                            assert(old_rs[i + 1].start > line);
                        }
                    }
                }
                assert forall|l: int| #[trigger] covers(rs, l) == (covers(old_rs, l) || l == line) by {
                    if covers(rs, l) {
                        let k = choose|k: int| 0 <= k < rs.len() && (#[trigger] rs[k]).start <= l <= rs[k].end;
                        if k != i {
                            assert(old_rs[k].start <= l <= old_rs[k].end);
                        } else if l < line {
                            assert(old_rs[k].start <= l <= old_rs[k].end);
                        }
                    }
                    if covers(old_rs, l) {
                        let k = choose|k: int|
                            0 <= k < old_rs.len() && (#[trigger] old_rs[k]).start <= l <= old_rs[k].end;
                        assert(rs[k].start <= l <= rs[k].end);
                    }
                    if l == line {
                        assert(rs[i as int].start <= l <= rs[i as int].end);
                    }
                }
            }
}

fn extend_start(ranges: &mut Vec<LineRange>, i: usize, line: usize)
    requires
        canonical(old(ranges)@),
        i < old(ranges)@.len(),
        forall|j: int| 0 <= j < i ==> (#[trigger] old(ranges)@[j]).end + 1 < line,
        forall|j: int| i <= j < old(ranges)@.len() ==> (#[trigger] old(ranges)@[j]).end + 1 >= line,
        old(ranges)@[i as int].start == line + 1,
    ensures
        canonical(final(ranges)@),
        forall|l: int| #[trigger] covers(final(ranges)@, l) == (covers(old(ranges)@, l) || l == line),
        final(ranges)@.len() == old(ranges)@.len(),
{
    let ghost old_rs = ranges@;
    let n = ranges.len();
    let r = ranges[i];
        ranges.set(i, LineRange { start: line, end: r.end });
        proof {
            let rs = ranges@;
            assert forall|a: int, b: int| 0 <= a < b < rs.len() implies (#[trigger] rs[a]).end + 1
                < (#[trigger] rs[b]).start by {
                assert(old_rs[a].end + 1 < old_rs[b].start);
            }
            assert forall|l: int| #[trigger] covers(rs, l) == (covers(old_rs, l) || l == line) by {
                if covers(rs, l) {
                    let k = choose|k: int| 0 <= k < rs.len() && (#[trigger] rs[k]).start <= l <= rs[k].end;
                    if k != i || l > line {
                        assert(old_rs[k].start <= l <= old_rs[k].end);
                    }
                }
                if covers(old_rs, l) {
                    let k = choose|k: int|
                        0 <= k < old_rs.len() && (#[trigger] old_rs[k]).start <= l <= old_rs[k].end;
                    assert(rs[k].start <= l <= rs[k].end);
                }
                if l == line {
                    assert(rs[i as int].start <= l <= rs[i as int].end);
                }
            }
        }
}

fn insert_new(ranges: &mut Vec<LineRange>, i: usize, line: usize)
    requires
        canonical(old(ranges)@),
        i < old(ranges)@.len(),
        forall|j: int| 0 <= j < i ==> (#[trigger] old(ranges)@[j]).end + 1 < line,
        forall|j: int| i <= j < old(ranges)@.len() ==> (#[trigger] old(ranges)@[j]).end + 1 >= line,
        old(ranges)@[i as int].start > line + 1,
    ensures
        canonical(final(ranges)@),
        forall|l: int| #[trigger] covers(final(ranges)@, l) == (covers(old(ranges)@, l) || l == line),
        final(ranges)@.len() == old(ranges)@.len() + 1,
{
    let ghost old_rs = ranges@;
    let n = ranges.len();
    let r = ranges[i];
        ranges.insert(i, LineRange { start: line, end: line });
        proof {
            let rs = ranges@;
            assert(rs.len() == n + 1);
            assert forall|j: int| 0 <= j < rs.len() implies #[trigger] rs[j] == (if j < i {
                old_rs[j]
            } else if j == i {
                LineRange { start: line, end: line }
            } else {
                old_rs[j - 1]
            }) by {}
            assert forall|a: int, b: int| 0 <= a < b < rs.len() implies (#[trigger] rs[a]).end + 1
                < (#[trigger] rs[b]).start by {
                if a < i && b > i {
                    assert(old_rs[a].end + 1 < old_rs[b - 1].start);
                } else if a > i {
                    assert(old_rs[a - 1].end + 1 < old_rs[b - 1].start);
                } else if a < i {
                    assert(old_rs[a].end + 1 < old_rs[b].start);
                } else {
                    if b > i + 1 {
                        assert(old_rs[i as int].end + 1 < old_rs[b - 1].start);
                    }
                }
            }
            assert forall|l: int| #[trigger] covers(rs, l) == (covers(old_rs, l) || l == line) by {
                if covers(rs, l) {
                    let k = choose|k: int| 0 <= k < rs.len() && (#[trigger] rs[k]).start <= l <= rs[k].end;
                    if k < i {
                        assert(old_rs[k].start <= l <= old_rs[k].end);
                    } else if k > i {
                        assert(old_rs[k - 1].start <= l <= old_rs[k - 1].end);
                    }
                }
                if covers(old_rs, l) {
                    let k = choose|k: int|
                        0 <= k < old_rs.len() && (#[trigger] old_rs[k]).start <= l <= old_rs[k].end;
                    if k < i {
                        assert(rs[k].start <= l <= rs[k].end);
                    } else {
                        assert(rs[k + 1].start <= l <= rs[k + 1].end);
                    }
                }
                if l == line {
                    assert(rs[i as int].start <= l <= rs[i as int].end);
                }
            }
        }
}

impl ChangedLines {
    /// The recorded paths of Rust sources (extension `rs`), in recorded
    /// order.
    pub fn rust_paths(&self) -> (r: Vec<String>)
        ensures
            crate::validate::strings_view(r@) == self.paths().filter(
                |p: Seq<char>| crate::rust_facts::rust_source_name(p),
            ),
    {
        let ghost ps = self.paths();
        let mut out: Vec<String> = Vec::new();
        let mut i: usize = 0;
        proof {
            reveal_with_fuel(Seq::filter, 1);
            assert(ps.take(0) =~= Seq::<Seq<char>>::empty());
        }
        while i < self.by_path.len()
            invariant
                i <= self.by_path@.len(),
                ps == self.paths(),
                crate::validate::strings_view(out@) == ps.take(i as int).filter(
                    |p: Seq<char>| crate::rust_facts::rust_source_name(p),
                ),
            decreases self.by_path.len() - i,
        {
            let path = self.by_path[i].path.as_str();
            proof {
                reveal_with_fuel(Seq::filter, 1);
                assert(ps.take(i + 1).drop_last() =~= ps.take(i as int));
                assert(ps.take(i + 1).last() == path@);
            }
            if crate::rust_facts::has_rust_extension(path) {
                let ghost before = crate::validate::strings_view(out@);
                out.push(crate::text::owned(path));
                assert(crate::validate::strings_view(out@) =~= before.push(path@));
            }
            i = i + 1;
        }
        assert(ps.take(i as int) =~= ps);
        out
    }

    /// How many recorded paths are Rust sources.
    pub fn rust_file_count(&self) -> (n: usize)
        ensures
            n == self.paths().filter(|p: Seq<char>| crate::rust_facts::rust_source_name(p)).len(),
    {
        let paths = self.rust_paths();
        paths.len()
    }
}

} // verus!
