use vstd::arithmetic::power2::{lemma_pow2_unfold, pow2};
use vstd::prelude::*;
use vstd::relations::injective_on;
use vstd::set_lib::{lemma_map_size, lemma_set_disjoint_lens};

use crate::bits::{
    bit, lemma_bits_determine, lemma_with_bit, lemma_without_bit, lemma_zero_bits, with_bit,
    without_bit,
};
use crate::pattern::{agrees, covered, covers, val_at, wilds_below};
use crate::term::{TermView, Val};

verus! {

/// The numbers below `2^k` that agree with pattern `p` at every position
/// below `k`.
pub open spec fn covered_below(p: Seq<Val>, k: int) -> Set<u32> {
    Set::new(|x: u32| fills(p, k, x))
}

/// `x` has no digit set from position `k` on and agrees with `p` below `k`.
pub open spec fn fills(p: Seq<Val>, k: int, x: u32) -> bool {
    forall|j: int|
        0 <= j < 32 ==> (#[trigger] bit(x, j) ==> j < k) && (j < k ==> agrees(
            val_at(p, j),
            bit(x, j),
        ))
}

/// Position `k` left aside, the numbers that fill `p` below `k + 1` are those
/// that fill it below `k`, with the digit at `k` set or not.
proof fn lemma_fills_step(p: Seq<Val>, k: int, x: u32)
    requires
        0 <= k < 32,
    ensures
        fills(p, k, x) ==> !bit(x, k),
        fills(p, k, x) && val_at(p, k) != Val::T ==> fills(p, k + 1, x),
        fills(p, k, x) && val_at(p, k) != Val::F ==> fills(p, k + 1, with_bit(x, k)),
        fills(p, k + 1, x) && !bit(x, k) ==> fills(p, k, x) && val_at(p, k) != Val::T,
        fills(p, k + 1, x) && bit(x, k) ==> fills(p, k, without_bit(x, k)) && val_at(p, k)
            != Val::F && with_bit(without_bit(x, k), k) == x,
{
    lemma_with_bit(x, k);
    lemma_without_bit(x, k);
    if fills(p, k, x) {
        assert(bit(x, k) ==> k < k);
        if val_at(p, k) != Val::T {
            assert forall|j: int| 0 <= j < 32 implies (#[trigger] bit(x, j) ==> j < k + 1) && (j
                < k + 1 ==> agrees(val_at(p, j), bit(x, j))) by {
                assert(bit(x, j) ==> j < k);
            }
        }
        if val_at(p, k) != Val::F {
            let y = with_bit(x, k);
            assert forall|j: int| 0 <= j < 32 implies (#[trigger] bit(y, j) ==> j < k + 1) && (j
                < k + 1 ==> agrees(val_at(p, j), bit(y, j))) by {
                assert(bit(x, j) ==> j < k);
                assert(bit(y, j) == (bit(x, j) || j == k));
            }
        }
    }
    if fills(p, k + 1, x) {
        if !bit(x, k) {
            assert forall|j: int| 0 <= j < 32 implies (#[trigger] bit(x, j) ==> j < k) && (j < k
                ==> agrees(val_at(p, j), bit(x, j))) by {
                assert(bit(x, j) ==> j < k + 1);
            }
            assert(agrees(val_at(p, k), bit(x, k)));
        } else {
            let y = without_bit(x, k);
            assert forall|j: int| 0 <= j < 32 implies (#[trigger] bit(y, j) ==> j < k) && (j < k
                ==> agrees(val_at(p, j), bit(y, j))) by {
                assert(bit(x, j) ==> j < k + 1);
                assert(bit(y, j) == (bit(x, j) && j != k));
            }
            assert(agrees(val_at(p, k), bit(x, k)));
            lemma_with_bit(y, k);
            assert forall|j: int| 0 <= j < 32 implies bit(with_bit(y, k), j) == bit(x, j) by {
                assert(bit(with_bit(y, k), j) == (bit(y, j) || j == k));
                assert(bit(y, j) == (bit(x, j) && j != k));
            }
            lemma_bits_determine(with_bit(y, k), x);
        }
    }
}

/// There are as many numbers that fill a pattern below `k` as there are ways
/// to choose a digit for each `S` below `k`.
pub proof fn lemma_covered_below_count(p: Seq<Val>, k: int)
    requires
        0 <= k <= 32,
    ensures
        covered_below(p, k).finite(),
        covered_below(p, k).len() == pow2(wilds_below(p, k as nat)),
    decreases k,
{
    if k == 0 {
        lemma_zero_bits();
        assert forall|x: u32| covered_below(p, 0).contains(x) <==> x == 0 by {
            if covered_below(p, 0).contains(x) {
                assert forall|j: int| 0 <= j < 32 implies bit(x, j) == bit(0u32, j) by {
                    assert(bit(x, j) ==> j < 0);
                }
                lemma_bits_determine(x, 0);
            }
        }
        assert(covered_below(p, 0) =~= set![0u32]);
        assert(pow2(0) == 1) by {
            vstd::arithmetic::power2::lemma2_to64();
        }
    } else {
        let h = k - 1;
        lemma_covered_below_count(p, h);
        let low = covered_below(p, h);
        let all = covered_below(p, k);
        let raise = |x: u32| with_bit(x, h);
        let high = low.map(raise);
        assert(injective_on(raise, low)) by {
            assert forall|x1: u32, x2: u32|
                low.contains(x1) && low.contains(x2) && #[trigger] raise(x1) == #[trigger] raise(
                    x2,
                ) implies x1 == x2 by {
                lemma_with_bit(x1, h);
                lemma_with_bit(x2, h);
                assert forall|j: int| 0 <= j < 32 implies bit(x1, j) == bit(x2, j) by {
                    assert(bit(with_bit(x1, h), j) == (bit(x1, j) || j == h));
                    assert(bit(with_bit(x2, h), j) == (bit(x2, j) || j == h));
                }
                lemma_bits_determine(x1, x2);
            }
        }
        lemma_map_size(low, high, raise);
        assert forall|y: u32| high.contains(y) <==> exists|x: u32|
            low.contains(x) && y == with_bit(x, h) by {
            if high.contains(y) {
                let x = choose|x: u32| low.contains(x) && raise(x) == y;
                assert(low.contains(x) && y == with_bit(x, h));
            }
            if exists|x: u32| low.contains(x) && y == with_bit(x, h) {
                let x = choose|x: u32| low.contains(x) && y == with_bit(x, h);
                assert(low.contains(x) && raise(x) == y);
            }
        }
        if val_at(p, h) == Val::F {
            assert forall|y: u32| all.contains(y) <==> low.contains(y) by {
                lemma_fills_step(p, h, y);
                if all.contains(y) {
                    assert(agrees(val_at(p, h), bit(y, h)));
                }
            }
            assert(all =~= low);
        } else if val_at(p, h) == Val::T {
            assert forall|y: u32| all.contains(y) <==> high.contains(y) by {
                lemma_fills_step(p, h, y);
                if all.contains(y) {
                    assert(agrees(val_at(p, h), bit(y, h)));
                    assert(low.contains(without_bit(y, h)) && y == with_bit(without_bit(y, h), h));
                }
                if high.contains(y) {
                    let x = choose|x: u32| low.contains(x) && y == with_bit(x, h);
                    lemma_fills_step(p, h, x);
                    assert(fills(p, k, with_bit(x, h)));
                }
            }
            assert(all =~= high);
        } else {
            assert forall|y: u32| all.contains(y) <==> low.contains(y) || high.contains(y) by {
                lemma_fills_step(p, h, y);
                if all.contains(y) {
                    if bit(y, h) {
                        assert(low.contains(without_bit(y, h)) && y == with_bit(
                            without_bit(y, h),
                            h,
                        ));
                    }
                }
                if high.contains(y) {
                    let x = choose|x: u32| low.contains(x) && y == with_bit(x, h);
                    lemma_fills_step(p, h, x);
                    assert(fills(p, k, with_bit(x, h)));
                }
            }
            assert(all =~= low + high);
            assert(low.disjoint(high)) by {
                assert forall|y: u32| !(low.contains(y) && high.contains(y)) by {
                    if low.contains(y) && high.contains(y) {
                        let x = choose|x: u32| low.contains(x) && y == with_bit(x, h);
                        lemma_with_bit(x, h);
                        assert(bit(y, h));
                        lemma_fills_step(p, h, y);
                    }
                }
            }
            lemma_set_disjoint_lens(low, high);
            lemma_pow2_unfold(wilds_below(p, k as nat));
        }
    }
}

/// A pattern stands for as many numbers as there are ways to choose a digit
/// for each of its positions `S` among the lowest 32: two to the power of
/// their count, and so for one number at least.
pub proof fn lemma_covered_count(p: Seq<Val>)
    ensures
        covered(p).finite(),
        covered(p).len() == pow2(wilds_below(p, 32)),
        covered(p).len() >= 1,
{
    lemma_covered_below_count(p, 32);
    assert forall|x: u32| covered(p).contains(x) <==> covered_below(p, 32).contains(x) by {
        if covers(p, x) {
            assert forall|j: int| 0 <= j < 32 implies (#[trigger] bit(x, j) ==> j < 32) && (j < 32
                ==> agrees(val_at(p, j), bit(x, j))) by {}
        }
        if fills(p, 32, x) {
            assert forall|j: int| 0 <= j < 32 implies agrees(val_at(p, j), #[trigger] bit(x, j)) by {}
        }
    }
    assert(covered(p) =~= covered_below(p, 32));
    vstd::arithmetic::power2::lemma_pow2_pos(wilds_below(p, 32));
}

/// A well-formed term has sources: as many as there are ways to choose a
/// digit for each `S` of its pattern.
pub proof fn lemma_sources_count(t: TermView)
    requires
        t.well_formed(),
    ensures
        t.sources.finite(),
        t.sources.len() == pow2(wilds_below(t.pattern, 32)),
        t.sources.len() >= 1,
{
    lemma_covered_count(t.pattern);
}

} // verus!
