//! Combinators for validators that report the first failing check.
use vstd::prelude::*;

use crate::text::{chars_eq, chars_of};

verus! {

/// An optional error message as a mathematical value.
pub open spec fn msg(o: Option<Vec<char>>) -> Option<Seq<char>> {
    match o {
        Some(v) => Some(v@),
        None => None,
    }
}

/// `a` when it reports an error, otherwise `b`: checks run in order and the
/// first failure wins.
pub open spec fn either(a: Option<Seq<char>>, b: Option<Seq<char>>) -> Option<Seq<char>> {
    match a {
        Some(m) => Some(m),
        None => b,
    }
}

/// The first error among the checks `check(0)`, ..., `check(n - 1)`.
pub open spec fn first_error(n: nat, check: spec_fn(int) -> Option<Seq<char>>) -> Option<
    Seq<char>,
>
    decreases n,
{
    if n == 0 {
        None
    } else {
        either(first_error((n - 1) as nat, check), check(n - 1))
    }
}

/// Running the checks one more step.
pub proof fn lemma_first_error_step(n: nat, check: spec_fn(int) -> Option<Seq<char>>)
    ensures
        first_error(n + 1, check) == either(first_error(n, check), check(n as int)),
{
}

/// Once a check fails, later checks do not change the outcome.
pub proof fn lemma_first_error_stable(n: nat, m: nat, check: spec_fn(int) -> Option<Seq<char>>)
    requires
        n <= m,
        first_error(n, check) is Some,
    ensures
        first_error(m, check) == first_error(n, check),
    decreases m - n,
{
    if n < m {
        lemma_first_error_stable(n, (m - 1) as nat, check);
    }
}

/// The element at `i` equals some earlier element.
pub open spec fn repeats_earlier(s: Seq<Seq<char>>, i: int) -> bool {
    exists|j: int| 0 <= j < i && s[j] == s[i]
}

/// The view of a vector of strings.
pub open spec fn strings_view(v: Seq<String>) -> Seq<Seq<char>> {
    v.map_values(|s: String| s@)
}

/// Whether `values[i]` repeats an earlier value.
pub fn repeats_earlier_exec(values: &Vec<String>, i: usize) -> (r: bool)
    requires
        i < values@.len(),
    ensures
        r == repeats_earlier(strings_view(values@), i as int),
{
    let target = chars_of(values[i].as_str());
    let ghost s = strings_view(values@);
    let mut j: usize = 0;
    while j < i
        invariant
            i < values@.len(),
            j <= i,
            s == strings_view(values@),
            target@ == s[i as int],
            forall|k: int| 0 <= k < j ==> s[k] != s[i as int],
        decreases i - j,
    {
        let other = chars_of(values[j].as_str());
        if chars_eq(other.as_slice(), target.as_slice()) {
            assert(s[j as int] == s[i as int]);
            return true;
        }
        j = j + 1;
    }
    false
}

/// Whether the value `target` occurs among `values`.
pub fn contains_string(values: &Vec<String>, target: &str) -> (r: bool)
    ensures
        r == strings_view(values@).contains(target@),
{
    let t = chars_of(target);
    let ghost s = strings_view(values@);
    let mut j: usize = 0;
    while j < values.len()
        invariant
            j <= values@.len(),
            s == strings_view(values@),
            t@ == target@,
            forall|k: int| 0 <= k < j ==> s[k] != target@,
        decreases values.len() - j,
    {
        let other = chars_of(values[j].as_str());
        if chars_eq(other.as_slice(), t.as_slice()) {
            assert(s[j as int] == target@);
            return true;
        }
        j = j + 1;
    }
    false
}

/// How many elements satisfy `p`.
pub open spec fn count_matching<A>(s: Seq<A>, p: spec_fn(A) -> bool) -> nat
    decreases s.len(),
{
    if s.len() == 0 {
        0
    } else {
        count_matching(s.drop_last(), p) + if p(s.last()) {
            1nat
        } else {
            0nat
        }
    }
}

/// Counting one more element of a prefix.
pub proof fn lemma_count_matching_step<A>(s: Seq<A>, i: int, p: spec_fn(A) -> bool)
    requires
        0 <= i < s.len(),
    ensures
        count_matching(s.take(i + 1), p) == count_matching(s.take(i), p) + if p(s[i]) {
            1nat
        } else {
            0nat
        },
{
    assert(s.take(i + 1).drop_last() =~= s.take(i));
}

/// A count never exceeds the length.
pub proof fn lemma_count_matching_bound<A>(s: Seq<A>, p: spec_fn(A) -> bool)
    ensures
        count_matching(s, p) <= s.len(),
    decreases s.len(),
{
    if s.len() > 0 {
        lemma_count_matching_bound(s.drop_last(), p);
    }
}

} // verus!
