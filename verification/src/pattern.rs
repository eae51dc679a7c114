use vstd::prelude::*;

use crate::bits::{
    bit, lemma_with_bit, lemma_without_bit, lemma_zero_bits, with_bit, without_bit,
};
use crate::term::Val;

verus! {

/// The value of pattern `p` at position `i`, counted from the least
/// significant end. Past the end of the pattern every position reads `F`.
pub open spec fn val_at(p: Seq<Val>, i: int) -> Val {
    if 0 <= i < p.len() {
        p[i]
    } else {
        Val::F
    }
}

/// Two patterns are the same once the shorter one is extended with `F`.
pub open spec fn same_pattern(p: Seq<Val>, q: Seq<Val>) -> bool {
    forall|i: int| 0 <= i ==> val_at(p, i) == val_at(q, i)
}

/// The length of the longer of two patterns.
pub open spec fn width(p: Seq<Val>, q: Seq<Val>) -> nat {
    if p.len() >= q.len() {
        p.len()
    } else {
        q.len()
    }
}

/// The number of positions below `n` at which `p` and `q` differ.
pub open spec fn differences_below(p: Seq<Val>, q: Seq<Val>, n: nat) -> nat
    decreases n,
{
    if n == 0 {
        0
    } else {
        differences_below(p, q, (n - 1) as nat) + if val_at(p, n - 1) != val_at(q, n - 1) {
            1nat
        } else {
            0nat
        }
    }
}

/// The number of positions at which `p` and `q` differ.
pub open spec fn differences(p: Seq<Val>, q: Seq<Val>) -> nat {
    differences_below(p, q, width(p, q))
}

/// The pattern that generalises `p` and `q`: `S` wherever they differ, their
/// common value elsewhere.
pub open spec fn merged(p: Seq<Val>, q: Seq<Val>) -> Seq<Val> {
    Seq::new(
        width(p, q),
        |i: int|
            if val_at(p, i) != val_at(q, i) {
                Val::S
            } else {
                val_at(p, i)
            },
    )
}

/// The number of positions below `n` at which `p` reads `T`.
pub open spec fn trues_below(p: Seq<Val>, n: nat) -> nat
    decreases n,
{
    if n == 0 {
        0
    } else {
        trues_below(p, (n - 1) as nat) + if val_at(p, n - 1) == Val::T {
            1nat
        } else {
            0nat
        }
    }
}

/// The number of `T` positions in `p`.
pub open spec fn count_true(p: Seq<Val>) -> nat {
    trues_below(p, p.len())
}

/// The number of positions below `n` at which `p` reads `S`.
pub open spec fn wilds_below(p: Seq<Val>, n: nat) -> nat
    decreases n,
{
    if n == 0 {
        0
    } else {
        wilds_below(p, (n - 1) as nat) + if val_at(p, n - 1) == Val::S {
            1nat
        } else {
            0nat
        }
    }
}

/// `p` and `q` differ at position `i` and nowhere else.
pub open spec fn differ_only_at(p: Seq<Val>, q: Seq<Val>, i: int) -> bool {
    &&& 0 <= i
    &&& val_at(p, i) != val_at(q, i)
    &&& forall|j: int| 0 <= j && j != i ==> val_at(p, j) == val_at(q, j)
}

/// The pattern of exactly 32 positions that reads as `p` does on them.
pub open spec fn normal(p: Seq<Val>) -> Seq<Val> {
    Seq::new(32, |i: int| val_at(p, i))
}

/// Whether a position value admits a binary digit.
pub open spec fn agrees(v: Val, b: bool) -> bool {
    match v {
        Val::T => b,
        Val::F => !b,
        Val::S => true,
    }
}

/// Whether the 32-bit number `x` is one of the combinations that pattern `p`
/// stands for.
pub open spec fn covers(p: Seq<Val>, x: u32) -> bool {
    forall|i: int| 0 <= i < 32 ==> agrees(val_at(p, i), #[trigger] bit(x, i))
}

/// All 32-bit numbers that pattern `p` stands for.
pub open spec fn covered(p: Seq<Val>) -> Set<u32> {
    Set::new(|x: u32| covers(p, x))
}

/// A pattern fits 32 bits when every position from 32 on reads `F`.
pub open spec fn fits(p: Seq<Val>) -> bool {
    forall|i: int| 32 <= i ==> val_at(p, i) == Val::F
}

/// Counting differences over more positions never lowers the count.
pub proof fn lemma_differences_monotone(p: Seq<Val>, q: Seq<Val>, i: nat, n: nat)
    requires
        i <= n,
    ensures
        differences_below(p, q, i) <= differences_below(p, q, n),
    decreases n,
{
    if i < n {
        lemma_differences_monotone(p, q, i, (n - 1) as nat);
    }
}

/// There are no differences below `n` exactly when the patterns agree at
/// every position below `n`.
pub proof fn lemma_differences_zero(p: Seq<Val>, q: Seq<Val>, n: nat)
    ensures
        differences_below(p, q, n) == 0 <==> forall|j: int|
            0 <= j < n ==> val_at(p, j) == val_at(q, j),
    decreases n,
{
    if n > 0 {
        lemma_differences_zero(p, q, (n - 1) as nat);
    }
}

/// Below `n`, `p` and `q` differ at position `i` and nowhere else.
pub open spec fn single_difference_below(p: Seq<Val>, q: Seq<Val>, n: nat, i: int) -> bool {
    &&& 0 <= i < n
    &&& val_at(p, i) != val_at(q, i)
    &&& forall|j: int| 0 <= j < n && j != i ==> val_at(p, j) == val_at(q, j)
}

/// There is one difference below `n` exactly when a single position below
/// `n` differs.
pub proof fn lemma_differences_one(p: Seq<Val>, q: Seq<Val>, n: nat)
    ensures
        differences_below(p, q, n) == 1 <==> exists|i: int| single_difference_below(p, q, n, i),
    decreases n,
{
    if n > 0 {
        let m = (n - 1) as nat;
        lemma_differences_one(p, q, m);
        lemma_differences_zero(p, q, m);
        if val_at(p, n - 1) != val_at(q, n - 1) {
            if differences_below(p, q, m) == 0 {
                assert(single_difference_below(p, q, n, n - 1));
            } else {
                assert forall|i: int| !single_difference_below(p, q, n, i) by {
                    if single_difference_below(p, q, n, i) {
                        assert(i == n - 1);
                    }
                }
            }
        } else {
            if differences_below(p, q, m) == 1 {
                let i = choose|i: int| single_difference_below(p, q, m, i);
                assert(single_difference_below(p, q, n, i));
            } else {
                assert forall|i: int| !single_difference_below(p, q, n, i) by {
                    if single_difference_below(p, q, n, i) {
                        assert(i != n - 1);
                        assert(single_difference_below(p, q, m, i));
                    }
                }
            }
        }
    } else {
        assert forall|i: int| !single_difference_below(p, q, n, i) by {}
    }
}

/// Two patterns count one difference exactly when they differ at a single
/// position.
pub proof fn lemma_single_difference(p: Seq<Val>, q: Seq<Val>)
    ensures
        differences(p, q) == 1 <==> exists|i: int| differ_only_at(p, q, i),
        forall|i: int| differ_only_at(p, q, i) ==> i < width(p, q),
{
    let n = width(p, q);
    lemma_differences_one(p, q, n);
    if differences(p, q) == 1 {
        let i = choose|i: int| single_difference_below(p, q, n, i);
        assert(differ_only_at(p, q, i));
    }
    if exists|i: int| differ_only_at(p, q, i) {
        let i = choose|i: int| differ_only_at(p, q, i);
        assert(single_difference_below(p, q, n, i));
    }
}

/// Two patterns count no difference exactly when they are the same pattern.
pub proof fn lemma_no_difference(p: Seq<Val>, q: Seq<Val>)
    ensures
        differences(p, q) == 0 <==> same_pattern(p, q),
{
    lemma_differences_zero(p, q, width(p, q));
}

/// Two patterns that differ at two positions count at least two differences.
pub proof fn lemma_two_differences(p: Seq<Val>, q: Seq<Val>, i: int, j: int)
    requires
        0 <= i,
        0 <= j,
        i != j,
        val_at(p, i) != val_at(q, i),
        val_at(p, j) != val_at(q, j),
    ensures
        differences(p, q) >= 2,
{
    lemma_single_difference(p, q);
    lemma_no_difference(p, q);
    if differences(p, q) == 1 {
        let k = choose|k: int| differ_only_at(p, q, k);
        assert(k == i || k == j ==> false);
    }
}

/// The count of differences reads the patterns only through their positions:
/// patterns that are the same after extension count alike.
pub proof fn lemma_differences_respect(
    p: Seq<Val>,
    q: Seq<Val>,
    u: Seq<Val>,
    v: Seq<Val>,
    n: nat,
)
    requires
        same_pattern(p, u),
        same_pattern(q, v),
    ensures
        differences_below(p, q, n) == differences_below(u, v, n),
    decreases n,
{
    if n > 0 {
        lemma_differences_respect(p, q, u, v, (n - 1) as nat);
    }
}

/// Counting differences past the end of both patterns adds nothing.
pub proof fn lemma_differences_past_width(p: Seq<Val>, q: Seq<Val>, n: nat)
    requires
        width(p, q) <= n,
    ensures
        differences_below(p, q, n) == differences(p, q),
    decreases n,
{
    if width(p, q) < n {
        lemma_differences_past_width(p, q, (n - 1) as nat);
    }
}

/// Patterns that are the same after extension count the same differences
/// against others.
pub proof fn lemma_differences_same(p: Seq<Val>, q: Seq<Val>, u: Seq<Val>, v: Seq<Val>)
    requires
        same_pattern(p, u),
        same_pattern(q, v),
    ensures
        differences(p, q) == differences(u, v),
{
    let n = if width(p, q) >= width(u, v) {
        width(p, q)
    } else {
        width(u, v)
    };
    lemma_differences_past_width(p, q, n);
    lemma_differences_past_width(u, v, n);
    lemma_differences_respect(p, q, u, v, n);
}

/// The count of `T` positions reads the pattern only through its positions.
pub proof fn lemma_trues_respect(p: Seq<Val>, u: Seq<Val>, n: nat)
    requires
        same_pattern(p, u),
    ensures
        trues_below(p, n) == trues_below(u, n),
    decreases n,
{
    if n > 0 {
        lemma_trues_respect(p, u, (n - 1) as nat);
    }
}

/// Counting `T` positions past the end of the pattern adds nothing.
pub proof fn lemma_trues_past_len(p: Seq<Val>, n: nat)
    requires
        p.len() <= n,
    ensures
        trues_below(p, n) == count_true(p),
    decreases n,
{
    if p.len() < n {
        lemma_trues_past_len(p, (n - 1) as nat);
    }
}

/// Patterns that are the same after extension have the same number of `T`
/// positions.
pub proof fn lemma_count_true_same(p: Seq<Val>, u: Seq<Val>)
    requires
        same_pattern(p, u),
    ensures
        count_true(p) == count_true(u),
{
    let n = if p.len() >= u.len() {
        p.len()
    } else {
        u.len()
    };
    lemma_trues_past_len(p, n);
    lemma_trues_past_len(u, n);
    lemma_trues_respect(p, u, n);
}

/// The count of `S` positions reads the pattern only through its positions.
pub proof fn lemma_wilds_respect(p: Seq<Val>, u: Seq<Val>, n: nat)
    requires
        same_pattern(p, u),
    ensures
        wilds_below(p, n) == wilds_below(u, n),
    decreases n,
{
    if n > 0 {
        lemma_wilds_respect(p, u, (n - 1) as nat);
    }
}

/// Patterns that agree below `n` have the same count of `S` below `n`.
pub proof fn lemma_wilds_respect_prefix(p: Seq<Val>, u: Seq<Val>, n: nat)
    requires
        forall|j: int| 0 <= j < n ==> val_at(p, j) == val_at(u, j),
    ensures
        wilds_below(p, n) == wilds_below(u, n),
    decreases n,
{
    if n > 0 {
        lemma_wilds_respect_prefix(p, u, (n - 1) as nat);
    }
}

/// No more than `n` positions below `n` read `S`.
pub proof fn lemma_wilds_bound(p: Seq<Val>, n: nat)
    ensures
        wilds_below(p, n) <= n,
    decreases n,
{
    if n > 0 {
        lemma_wilds_bound(p, (n - 1) as nat);
    }
}

/// No more than `n` positions below `n` read `T`.
pub proof fn lemma_trues_bound(p: Seq<Val>, n: nat)
    ensures
        trues_below(p, n) <= n,
    decreases n,
{
    if n > 0 {
        lemma_trues_bound(p, (n - 1) as nat);
    }
}

/// How the merged pattern reads at every position.
pub proof fn lemma_merged_at(p: Seq<Val>, q: Seq<Val>, j: int)
    requires
        0 <= j,
    ensures
        val_at(merged(p, q), j) == if val_at(p, j) != val_at(q, j) {
            Val::S
        } else {
            val_at(p, j)
        },
{
}

/// Where `p` turns into `S` at one position and stays as it is elsewhere,
/// the count of `S` below `n` grows by one if the position is below `n` and
/// did not read `S` before.
pub proof fn lemma_wilds_after_merge(p: Seq<Val>, m: Seq<Val>, i: int, n: nat)
    requires
        0 <= i,
        val_at(m, i) == Val::S,
        forall|j: int| 0 <= j && j != i ==> val_at(m, j) == val_at(p, j),
    ensures
        wilds_below(m, n) == wilds_below(p, n) + if i < n && val_at(p, i) != Val::S {
            1nat
        } else {
            0nat
        },
    decreases n,
{
    if n > 0 {
        lemma_wilds_after_merge(p, m, i, (n - 1) as nat);
    }
}

/// A pattern that fits 32 bits is the same pattern as its normal form.
pub proof fn lemma_normal_same(p: Seq<Val>)
    requires
        fits(p),
    ensures
        same_pattern(normal(p), p),
        fits(normal(p)),
        normal(p).len() == 32,
{
}

/// Patterns of 32 positions that are the same after extension are equal.
pub proof fn lemma_normal_equal(p: Seq<Val>, q: Seq<Val>)
    requires
        same_pattern(p, q),
    ensures
        normal(p) == normal(q),
{
    assert(normal(p) =~= normal(q));
}

/// Merging patterns that differ at one position gives a pattern that stands
/// for exactly the numbers that either of them stands for.
pub proof fn lemma_merged_covers(p: Seq<Val>, q: Seq<Val>, i: int)
    requires
        differ_only_at(p, q, i),
    ensures
        covered(merged(p, q)) == covered(p).union(covered(q)),
{
    let m = merged(p, q);
    assert forall|x: u32| covers(m, x) <==> covers(p, x) || covers(q, x) by {
        if covers(m, x) {
            if i < 32 && !agrees(val_at(p, i), bit(x, i)) {
                assert forall|j: int| 0 <= j < 32 implies agrees(
                    val_at(q, j),
                    #[trigger] bit(x, j),
                ) by {
                    lemma_merged_at(p, q, j);
                }
            } else {
                assert forall|j: int| 0 <= j < 32 implies agrees(
                    val_at(p, j),
                    #[trigger] bit(x, j),
                ) by {
                    lemma_merged_at(p, q, j);
                }
            }
        }
        if covers(p, x) || covers(q, x) {
            assert forall|j: int| 0 <= j < 32 implies agrees(val_at(m, j), #[trigger] bit(x, j)) by {
                lemma_merged_at(p, q, j);
            }
        }
    }
    assert(covered(m) =~= covered(p).union(covered(q)));
}

/// Merging patterns that fit 32 bits gives a pattern that fits 32 bits.
pub proof fn lemma_merged_fits(p: Seq<Val>, q: Seq<Val>)
    requires
        fits(p),
        fits(q),
    ensures
        fits(merged(p, q)),
{
    assert forall|j: int| 32 <= j implies val_at(merged(p, q), j) == Val::F by {
        lemma_merged_at(p, q, j);
    }
}

/// Where `p` and `q` differ at position `i` only, their counts of `T` below
/// `n` differ by what stands at `i`.
pub proof fn lemma_trues_differ(p: Seq<Val>, q: Seq<Val>, i: int, n: nat)
    requires
        differ_only_at(p, q, i),
    ensures
        trues_below(q, n) + (if i < n && val_at(p, i) == Val::T {
            1nat
        } else {
            0nat
        }) == trues_below(p, n) + (if i < n && val_at(q, i) == Val::T {
            1nat
        } else {
            0nat
        }),
    decreases n,
{
    if n > 0 {
        lemma_trues_differ(p, q, i, (n - 1) as nat);
    }
}

/// In a pattern that fits 32 bits no position from 32 on reads `T`.
pub proof fn lemma_trues_above(p: Seq<Val>, n: nat)
    requires
        fits(p),
        32 <= n,
    ensures
        trues_below(p, n) == trues_below(p, 32),
    decreases n,
{
    if n > 32 {
        lemma_trues_above(p, (n - 1) as nat);
    }
}

/// A pattern that fits 32 bits has all its `T` positions below 32.
pub proof fn lemma_trues_fits(p: Seq<Val>)
    requires
        fits(p),
    ensures
        trues_below(p, 32) == count_true(p),
        count_true(p) <= 32,
{
    lemma_trues_bound(p, 32);
    if p.len() <= 32 {
        lemma_trues_past_len(p, 32);
    } else {
        lemma_trues_above(p, p.len());
    }
}

/// What merging does to the counts when the second pattern has one `T` more
/// than the first: the position that differs reads `T` in the second pattern,
/// the merged pattern keeps the first pattern's count of `T`, and it has one
/// `S` more than the second pattern.
pub proof fn lemma_merged_counts(p: Seq<Val>, q: Seq<Val>)
    requires
        fits(p),
        fits(q),
        differences(p, q) == 1,
        count_true(q) == count_true(p) + 1,
    ensures
        count_true(merged(p, q)) == count_true(p),
        wilds_below(merged(p, q), 32) == wilds_below(q, 32) + 1,
        exists|i: int|
            0 <= i < 32 && differ_only_at(p, q, i) && val_at(q, i) == Val::T && val_at(p, i)
                != Val::T,
{
    lemma_single_difference(p, q);
    let i = choose|i: int| differ_only_at(p, q, i);
    let m = merged(p, q);
    lemma_merged_fits(p, q);
    lemma_trues_fits(p);
    lemma_trues_fits(q);
    lemma_trues_fits(m);
    lemma_trues_differ(p, q, i, 32);
    assert(i < 32);
    assert(val_at(q, i) == Val::T && val_at(p, i) != Val::T);
    assert forall|j: int| 0 <= j implies val_at(m, j) == if j == i {
        Val::S
    } else {
        val_at(q, j)
    } by {
        lemma_merged_at(p, q, j);
    }
    lemma_wilds_after_merge(q, m, i, 32);
    if val_at(p, i) == Val::S {
        assert(same_pattern(p, m));
        lemma_count_true_same(p, m);
    } else {
        assert(differ_only_at(p, m, i));
        lemma_trues_differ(p, m, i, 32);
    }
}

/// Merging reads the patterns only through their positions.
pub proof fn lemma_merged_same(p: Seq<Val>, q: Seq<Val>, u: Seq<Val>, v: Seq<Val>)
    requires
        same_pattern(p, u),
        same_pattern(q, v),
    ensures
        same_pattern(merged(p, q), merged(u, v)),
{
    assert forall|j: int| 0 <= j implies val_at(merged(p, q), j) == val_at(merged(u, v), j) by {
        lemma_merged_at(p, q, j);
        lemma_merged_at(u, v, j);
    }
}

/// The number that has a digit set exactly where `p` reads `T` below
/// position `k`.
pub open spec fn point(p: Seq<Val>, k: nat) -> u32
    decreases k,
{
    if k == 0 {
        0
    } else if val_at(p, k - 1) == Val::T && k <= 32 {
        with_bit(point(p, (k - 1) as nat), k - 1)
    } else {
        point(p, (k - 1) as nat)
    }
}

/// The digits of the point of a pattern.
pub proof fn lemma_point_bits(p: Seq<Val>, k: nat)
    requires
        k <= 32,
    ensures
        forall|j: int|
            0 <= j < 32 ==> #[trigger] bit(point(p, k), j) == (j < k && val_at(p, j) == Val::T),
    decreases k,
{
    if k == 0 {
        lemma_zero_bits();
    } else {
        let before = point(p, (k - 1) as nat);
        lemma_point_bits(p, (k - 1) as nat);
        if val_at(p, k - 1) == Val::T {
            lemma_with_bit(before, k - 1);
            assert forall|j: int| 0 <= j < 32 implies #[trigger] bit(point(p, k), j) == (j < k
                && val_at(p, j) == Val::T) by {
                assert(bit(with_bit(before, k - 1), j) == (bit(before, j) || j == k - 1));
            }
        } else {
            assert forall|j: int| 0 <= j < 32 implies #[trigger] bit(point(p, k), j) == (j < k
                && val_at(p, j) == Val::T) by {
                assert(bit(before, j) == (j < k - 1 && val_at(p, j) == Val::T));
            }
        }
    }
}

/// Every pattern stands for at least one number: the one with a digit set
/// exactly where the pattern reads `T`.
pub proof fn lemma_covered_point(p: Seq<Val>)
    ensures
        covers(p, point(p, 32)),
        forall|j: int| 0 <= j < 32 ==> #[trigger] bit(point(p, 32), j) == (val_at(p, j) == Val::T),
{
    lemma_point_bits(p, 32);
}

/// A number that a pattern stands for may change its digit at a position
/// where the pattern reads `S`.
pub proof fn lemma_covers_either(p: Seq<Val>, x: u32, i: int)
    requires
        covers(p, x),
        0 <= i < 32,
        val_at(p, i) == Val::S,
    ensures
        covers(p, with_bit(x, i)),
        covers(p, without_bit(x, i)),
{
    lemma_with_bit(x, i);
    lemma_without_bit(x, i);
    assert forall|j: int| 0 <= j < 32 implies agrees(
        val_at(p, j),
        #[trigger] bit(with_bit(x, i), j),
    ) by {
        assert(agrees(val_at(p, j), bit(x, j)));
    }
    assert forall|j: int| 0 <= j < 32 implies agrees(
        val_at(p, j),
        #[trigger] bit(without_bit(x, i), j),
    ) by {
        assert(agrees(val_at(p, j), bit(x, j)));
    }
}

/// Patterns that fit 32 bits and stand for the same numbers are the same
/// pattern.
pub proof fn lemma_covered_determines(p: Seq<Val>, q: Seq<Val>)
    requires
        fits(p),
        fits(q),
        covered(p) == covered(q),
    ensures
        same_pattern(p, q),
{
    assert forall|i: int| 0 <= i implies val_at(p, i) == val_at(q, i) by {
        if i < 32 && val_at(p, i) != val_at(q, i) {
            lemma_covered_point(p);
            lemma_covered_point(q);
            let x = point(p, 32);
            let y = point(q, 32);
            assert(covered(p).contains(x));
            assert(covered(q).contains(x));
            assert(covered(q).contains(y));
            assert(covered(p).contains(y));
            assert(agrees(val_at(p, i), bit(x, i)));
            assert(agrees(val_at(q, i), bit(x, i)));
            assert(agrees(val_at(p, i), bit(y, i)));
            assert(agrees(val_at(q, i), bit(y, i)));
            lemma_with_bit(x, i);
            lemma_without_bit(x, i);
            if val_at(p, i) == Val::S {
                lemma_covers_either(p, x, i);
                let z = if val_at(q, i) == Val::T {
                    without_bit(x, i)
                } else {
                    with_bit(x, i)
                };
                assert(covered(p).contains(z));
                assert(covered(q).contains(z));
                assert(agrees(val_at(q, i), bit(z, i)));
            } else if val_at(q, i) == Val::S {
                lemma_covers_either(q, x, i);
                let z = if val_at(p, i) == Val::T {
                    without_bit(x, i)
                } else {
                    with_bit(x, i)
                };
                assert(covered(q).contains(z));
                assert(covered(p).contains(z));
                assert(agrees(val_at(p, i), bit(z, i)));
            }
        }
    }
}

/// The count of differences does not depend on the order of the patterns.
pub proof fn lemma_differences_symmetric(p: Seq<Val>, q: Seq<Val>, n: nat)
    ensures
        differences_below(p, q, n) == differences_below(q, p, n),
    decreases n,
{
    if n > 0 {
        lemma_differences_symmetric(p, q, (n - 1) as nat);
    }
}

} // verus!
