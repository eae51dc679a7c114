use vstd::prelude::*;

verus! {

/// Whether the binary digit of weight `2^i` is set in `x`. Positions outside
/// `0..32` hold no digit and read as unset.
pub open spec fn bit(x: u32, i: int) -> bool {
    0 <= i < 32 && (x >> (i as u32)) & 1 == 1
}

/// A 32-bit number is determined by its binary digits.
pub proof fn lemma_bits_determine(x: u32, y: u32)
    requires
        forall|i: int| 0 <= i < 32 ==> bit(x, i) == bit(y, i),
    ensures
        x == y,
{
    assert(bit(x, 0) == bit(y, 0));
    assert(bit(x, 1) == bit(y, 1));
    assert(bit(x, 2) == bit(y, 2));
    assert(bit(x, 3) == bit(y, 3));
    assert(bit(x, 4) == bit(y, 4));
    assert(bit(x, 5) == bit(y, 5));
    assert(bit(x, 6) == bit(y, 6));
    assert(bit(x, 7) == bit(y, 7));
    assert(bit(x, 8) == bit(y, 8));
    assert(bit(x, 9) == bit(y, 9));
    assert(bit(x, 10) == bit(y, 10));
    assert(bit(x, 11) == bit(y, 11));
    assert(bit(x, 12) == bit(y, 12));
    assert(bit(x, 13) == bit(y, 13));
    assert(bit(x, 14) == bit(y, 14));
    assert(bit(x, 15) == bit(y, 15));
    assert(bit(x, 16) == bit(y, 16));
    assert(bit(x, 17) == bit(y, 17));
    assert(bit(x, 18) == bit(y, 18));
    assert(bit(x, 19) == bit(y, 19));
    assert(bit(x, 20) == bit(y, 20));
    assert(bit(x, 21) == bit(y, 21));
    assert(bit(x, 22) == bit(y, 22));
    assert(bit(x, 23) == bit(y, 23));
    assert(bit(x, 24) == bit(y, 24));
    assert(bit(x, 25) == bit(y, 25));
    assert(bit(x, 26) == bit(y, 26));
    assert(bit(x, 27) == bit(y, 27));
    assert(bit(x, 28) == bit(y, 28));
    assert(bit(x, 29) == bit(y, 29));
    assert(bit(x, 30) == bit(y, 30));
    assert(bit(x, 31) == bit(y, 31));
    assert(x == y) by (bit_vector)
        requires
            ((x >> 0u32) & 1 == 1) == ((y >> 0u32) & 1 == 1),
            ((x >> 1u32) & 1 == 1) == ((y >> 1u32) & 1 == 1),
            ((x >> 2u32) & 1 == 1) == ((y >> 2u32) & 1 == 1),
            ((x >> 3u32) & 1 == 1) == ((y >> 3u32) & 1 == 1),
            ((x >> 4u32) & 1 == 1) == ((y >> 4u32) & 1 == 1),
            ((x >> 5u32) & 1 == 1) == ((y >> 5u32) & 1 == 1),
            ((x >> 6u32) & 1 == 1) == ((y >> 6u32) & 1 == 1),
            ((x >> 7u32) & 1 == 1) == ((y >> 7u32) & 1 == 1),
            ((x >> 8u32) & 1 == 1) == ((y >> 8u32) & 1 == 1),
            ((x >> 9u32) & 1 == 1) == ((y >> 9u32) & 1 == 1),
            ((x >> 10u32) & 1 == 1) == ((y >> 10u32) & 1 == 1),
            ((x >> 11u32) & 1 == 1) == ((y >> 11u32) & 1 == 1),
            ((x >> 12u32) & 1 == 1) == ((y >> 12u32) & 1 == 1),
            ((x >> 13u32) & 1 == 1) == ((y >> 13u32) & 1 == 1),
            ((x >> 14u32) & 1 == 1) == ((y >> 14u32) & 1 == 1),
            ((x >> 15u32) & 1 == 1) == ((y >> 15u32) & 1 == 1),
            ((x >> 16u32) & 1 == 1) == ((y >> 16u32) & 1 == 1),
            ((x >> 17u32) & 1 == 1) == ((y >> 17u32) & 1 == 1),
            ((x >> 18u32) & 1 == 1) == ((y >> 18u32) & 1 == 1),
            ((x >> 19u32) & 1 == 1) == ((y >> 19u32) & 1 == 1),
            ((x >> 20u32) & 1 == 1) == ((y >> 20u32) & 1 == 1),
            ((x >> 21u32) & 1 == 1) == ((y >> 21u32) & 1 == 1),
            ((x >> 22u32) & 1 == 1) == ((y >> 22u32) & 1 == 1),
            ((x >> 23u32) & 1 == 1) == ((y >> 23u32) & 1 == 1),
            ((x >> 24u32) & 1 == 1) == ((y >> 24u32) & 1 == 1),
            ((x >> 25u32) & 1 == 1) == ((y >> 25u32) & 1 == 1),
            ((x >> 26u32) & 1 == 1) == ((y >> 26u32) & 1 == 1),
            ((x >> 27u32) & 1 == 1) == ((y >> 27u32) & 1 == 1),
            ((x >> 28u32) & 1 == 1) == ((y >> 28u32) & 1 == 1),
            ((x >> 29u32) & 1 == 1) == ((y >> 29u32) & 1 == 1),
            ((x >> 30u32) & 1 == 1) == ((y >> 30u32) & 1 == 1),
            ((x >> 31u32) & 1 == 1) == ((y >> 31u32) & 1 == 1),
    ;
}

/// `x` with the digit of weight `2^i` set.
pub open spec fn with_bit(x: u32, i: int) -> u32 {
    x | (1u32 << (i as u32))
}

/// `x` with the digit of weight `2^i` cleared.
pub open spec fn without_bit(x: u32, i: int) -> u32 {
    x & !(1u32 << (i as u32))
}

/// Setting one digit leaves the others as they are.
pub proof fn lemma_with_bit(x: u32, i: int)
    requires
        0 <= i < 32,
    ensures
        forall|j: int| 0 <= j < 32 ==> #[trigger] bit(with_bit(x, i), j) == (bit(x, j) || j == i),
{
    assert forall|j: int| 0 <= j < 32 implies #[trigger] bit(with_bit(x, i), j) == (bit(x, j) || j
        == i) by {
        let s = i as u32;
        let t = j as u32;
        assert((((x | (1u32 << s)) >> t) & 1 == 1) == (((x >> t) & 1 == 1) || t == s))
            by (bit_vector)
            requires
                s < 32,
                t < 32,
        ;
    }
}

/// Clearing one digit leaves the others as they are.
pub proof fn lemma_without_bit(x: u32, i: int)
    requires
        0 <= i < 32,
    ensures
        forall|j: int|
            0 <= j < 32 ==> #[trigger] bit(without_bit(x, i), j) == (bit(x, j) && j != i),
{
    assert forall|j: int| 0 <= j < 32 implies #[trigger] bit(without_bit(x, i), j) == (bit(x, j)
        && j != i) by {
        let s = i as u32;
        let t = j as u32;
        assert((((x & !(1u32 << s)) >> t) & 1 == 1) == (((x >> t) & 1 == 1) && t != s))
            by (bit_vector)
            requires
                s < 32,
                t < 32,
        ;
    }
}

/// No digit is set in zero.
pub proof fn lemma_zero_bits()
    ensures
        forall|j: int| !#[trigger] bit(0u32, j),
{
    assert forall|j: int| !#[trigger] bit(0u32, j) by {
        if 0 <= j < 32 {
            let t = j as u32;
            assert((0u32 >> t) & 1 == 0) by (bit_vector);
        }
    }
}

} // verus!
