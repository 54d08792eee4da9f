//! Bit queries on single bitmap bytes.
use vstd::prelude::*;

verus! {

/// Whether bit `bit` of `b` is set (bit 0 is the least significant).
pub open spec fn bit_of(b: u8, bit: int) -> bool {
    0 <= bit < 8 && (b >> (bit as u8)) & 1 == 1
}

/// The positions in `lo..hi` at which `b` has a set bit, in increasing order.
pub open spec fn set_bits_in(b: u8, lo: int, hi: int) -> Seq<usize>
    decreases hi - lo,
{
    if hi <= lo {
        Seq::empty()
    } else if bit_of(b, hi - 1) {
        set_bits_in(b, lo, hi - 1).push((hi - 1) as usize)
    } else {
        set_bits_in(b, lo, hi - 1)
    }
}

pub fn bit_set(i: u8, bit: usize) -> (r: bool)
    requires
        bit < 8,
    ensures
        r == bit_of(i, bit as int),
{
    (i >> (bit as u8)) & 1 == 1
}

/// The positions in `lo_include..hi` at which `i` has a set bit.
pub fn count_bits_set_range(i: u8, lo_include: usize, hi: usize) -> (r: Vec<usize>)
    requires
        hi <= 8,
    ensures
        r@ == set_bits_in(i, lo_include as int, hi as int),
{
    let mut set_bits: Vec<usize> = Vec::new();
    let mut bit: usize = lo_include;
    if bit > hi {
        return set_bits;
    }
    while bit < hi
        invariant
            lo_include <= bit <= hi <= 8,
            set_bits@ == set_bits_in(i, lo_include as int, bit as int),
        decreases hi - bit,
    {
        if bit_set(i, bit) {
            set_bits.push(bit);
        }
        bit += 1;
    }
    set_bits
}

/// The positions at which `i` has a set bit, in increasing order.
pub fn count_bits_set(i: u8) -> (r: Vec<usize>)
    ensures
        r@ == set_bits_in(i, 0, 8),
{
    count_bits_set_range(i, 0, 8)
}

/// Setting a bit makes it read as set and leaves the others alone.
pub proof fn lemma_set_bit(b: u8, bit: u8)
    requires
        bit < 8,
    ensures
        forall|j: int| 0 <= j < 8 ==> #[trigger] bit_of(b | (1u8 << bit), j) == (j == bit || bit_of(b, j)),
{
    let c = b | (1u8 << bit);
    assert forall|j: int| 0 <= j < 8 implies #[trigger] bit_of(c, j) == (j == bit || bit_of(b, j)) by {
        let jj = j as u8;
        assert(jj as int == j);
        assert((c >> jj) & 1 == 1 <==> (jj == bit || (b >> jj) & 1 == 1)) by (bit_vector)
            requires
                bit < 8,
                jj < 8,
                c == b | (1u8 << bit),
        ;
    }
}

/// Clearing a bit makes it read as clear and leaves the others alone.
pub proof fn lemma_clear_bit(b: u8, bit: u8)
    requires
        bit < 8,
    ensures
        forall|j: int| 0 <= j < 8 ==> #[trigger] bit_of(b & !(1u8 << bit), j) == (j != bit && bit_of(b, j)),
{
    let c = b & !(1u8 << bit);
    assert forall|j: int| 0 <= j < 8 implies #[trigger] bit_of(c, j) == (j != bit && bit_of(b, j)) by {
        let jj = j as u8;
        assert(jj as int == j);
        assert((c >> jj) & 1 == 1 <==> (jj != bit && (b >> jj) & 1 == 1)) by (bit_vector)
            requires
                bit < 8,
                jj < 8,
                c == b & !(1u8 << bit),
        ;
    }
}

/// A byte is zero exactly when none of its bits is set.
pub proof fn lemma_zero_byte(b: u8)
    ensures
        (b == 0) <==> (forall|j: int| 0 <= j < 8 ==> !bit_of(b, j)),
{
    if b != 0 {
        assert(b != 0 ==> exists|j: u8| j < 8 && (b >> j) & 1 == 1) by {
            if b != 0 {
                if (b >> 0u8) & 1 == 1 { } else if (b >> 1u8) & 1 == 1 { } else if (b >> 2u8) & 1 == 1 { }
                else if (b >> 3u8) & 1 == 1 { } else if (b >> 4u8) & 1 == 1 { } else if (b >> 5u8) & 1 == 1 { }
                else if (b >> 6u8) & 1 == 1 { } else if (b >> 7u8) & 1 == 1 { }
                else {
                    assert(false) by (bit_vector)
                        requires b != 0, (b >> 0u8) & 1 != 1, (b >> 1u8) & 1 != 1, (b >> 2u8) & 1 != 1,
                            (b >> 3u8) & 1 != 1, (b >> 4u8) & 1 != 1, (b >> 5u8) & 1 != 1,
                            (b >> 6u8) & 1 != 1, (b >> 7u8) & 1 != 1;
                }
            }
        }
        let j = choose|j: u8| j < 8 && (b >> j) & 1 == 1;
        assert(bit_of(b, j as int));
    } else {
        assert forall|j: int| 0 <= j < 8 implies !bit_of(b, j) by {
            let jj = j as u8;
            assert((0u8 >> jj) & 1 != 1) by (bit_vector);
        }
    }
}

} // verus!
