use itertools::{repeat_n, EitherOrBoth, Itertools};
use std::hash::{Hash, Hasher};
use vstd::prelude::*;

use crate::term::Val;

verus! {

/// What stands at one position when two patterns of possibly different
/// lengths are laid side by side.
#[derive(Debug, Copy, Clone, PartialEq, Eq, Structural)]
pub enum Paired {
    /// Both patterns reach this position.
    Both(Val, Val),
    /// Only the first pattern reaches this position.
    Left(Val),
    /// Only the second pattern reaches this position.
    Right(Val),
}

/// The pairing of `a` and `b` at position `i`, for `i` below the longer length.
pub open spec fn paired_at(a: Seq<Val>, b: Seq<Val>, i: int) -> Paired {
    if i < a.len() && i < b.len() {
        Paired::Both(a[i], b[i])
    } else if i < a.len() {
        Paired::Left(a[i])
    } else {
        Paired::Right(b[i])
    }
}

/// The two values that a pairing stands for, a missing side read as `F`.
pub open spec fn sides(pair: Paired) -> (Val, Val) {
    match pair {
        Paired::Both(a, b) => (a, b),
        Paired::Left(a) => (a, Val::F),
        Paired::Right(b) => (Val::F, b),
    }
}

/// Reads a pairing as two values, a missing side as `F`.
pub fn pad(pair: Paired) -> (r: (Val, Val))
    ensures
        r == sides(pair),
{
    match pair {
        Paired::Both(a, b) => (a, b),
        Paired::Left(a) => (a, Val::F),
        Paired::Right(b) => (Val::F, b),
    }
}

/// Calls `Itertools::zip_longest` on the two patterns and collects what it
/// yields. Trusted: the result is as long as the longer input; a position
/// that both inputs reach holds both values, a position past the end of one
/// input holds the value of the other alone.
#[verifier::external_body]
pub(crate) fn zip_longest(a: &Vec<Val>, b: &Vec<Val>) -> (r: Vec<Paired>)
    ensures
        r@.len() == if a@.len() >= b@.len() { a@.len() } else { b@.len() },
        forall|i: int| 0 <= i < r@.len() ==> r@[i] == paired_at(a@, b@, i),
{
    a.iter()
        .zip_longest(b.iter())
        .map(|p| match p {
            EitherOrBoth::Both(x, y) => Paired::Both(*x, *y),
            EitherOrBoth::Left(x) => Paired::Left(*x),
            EitherOrBoth::Right(y) => Paired::Right(*y),
        })
        .collect()
}

/// A choice of a binary digit for each of `k` wildcards.
pub open spec fn is_assignment(a: Seq<u32>, k: nat) -> bool {
    a.len() == k && forall|i: int| 0 <= i < k ==> a[i] < 2
}

/// Calls `Itertools::multi_cartesian_product` on `k` copies of the range
/// `0..2`, made by `itertools::repeat_n`, and collects what it yields.
/// Trusted: the result holds every way to choose a binary digit for each of
/// `k` wildcards, each way once, and nothing else. The result has `2^k`
/// entries, so `k` is kept to the 32 wildcards that a pattern of 32 bits can
/// have.
#[verifier::external_body]
pub(crate) fn assignments(k: usize) -> (r: Vec<Vec<u32>>)
    requires
        k <= 32,
    ensures
        forall|n: int| 0 <= n < r@.len() ==> is_assignment(#[trigger] r@[n]@, k as nat),
        forall|a: Seq<u32>|
            is_assignment(a, k as nat) ==> exists|n: int| 0 <= n < r@.len() && #[trigger] r@[n]@ == a,
        forall|m: int, n: int| 0 <= m < n < r@.len() ==> r@[m]@ != r@[n]@,
{
    repeat_n(0..2u32, k).multi_cartesian_product().collect()
}

/// Calls `Itertools::sorted` on the numbers and collects what it yields.
/// Trusted: the result holds the same numbers, each as often as `items`
/// does, in ascending order.
#[verifier::external_body]
pub(crate) fn sorted<T: Copy + Ord + Integer>(items: Vec<T>) -> (r: Vec<T>)
    ensures
        r@.to_multiset() == items@.to_multiset(),
        forall|i: int, j: int|
            #![trigger r@[i], r@[j]]
            0 <= i <= j < r@.len() ==> r@[i] as int <= r@[j] as int,
{
    items.into_iter().sorted().collect()
}

/// The standard library's hashing of a 32-bit number, `<u32 as Hash>::hash`.
/// Trusted, and nothing is claimed: what reaches the hasher is not stated.
pub assume_specification<H: Hasher>[ <u32 as Hash>::hash::<H> ](value: &u32, state: &mut H)
;

} // verus!
