//! Bitwise majority vote over redundant copies of a byte.
//!
//! A redundancy buffer holds `n` copies of the same data, one after the
//! other. The bytes that sit at the same offset in every copy form a
//! *column*. Each of the eight bit positions of a column is voted on
//! independently: the value held by strictly more copies wins, and an exact
//! tie goes to the cleared bit.

use vstd::prelude::*;
use vstd::arithmetic::div_mod::{lemma_fundamental_div_mod, lemma_fundamental_div_mod_converse};

verus! {

/// The largest number of copies whose disagreements over one byte still fit
/// the `u32` counter: each of the eight bits has at most half the copies
/// disagree.
pub const MAX_VOTERS: usize = 0x3fff_ffff;

/// Whether bit `bit` (0 is the least significant) is set in `byte`.
pub open spec fn bit_of(byte: u8, bit: u8) -> bool {
    byte & (1u8 << bit) != 0
}

/// The number of bytes of `column` in which bit `bit` is set.
pub open spec fn ones(column: Seq<u8>, bit: u8) -> nat
    decreases column.len(),
{
    if column.len() == 0 {
        0
    } else {
        ones(column.drop_last(), bit) + if bit_of(column.last(), bit) {
            1nat
        } else {
            0nat
        }
    }
}

/// The winning value of bit `bit`: set only when strictly more copies have it
/// set than cleared.
pub open spec fn majority_bit(column: Seq<u8>, bit: u8) -> bool {
    2 * ones(column, bit) > column.len()
}

/// The number of copies that lose the vote on bit `bit`.
pub open spec fn bit_disagreements(column: Seq<u8>, bit: u8) -> nat {
    if majority_bit(column, bit) {
        (column.len() - ones(column, bit)) as nat
    } else {
        ones(column, bit)
    }
}

/// The byte made of the winning values of the bits below `bits`.
pub open spec fn majority_below(column: Seq<u8>, bits: u8) -> u8
    decreases bits,
{
    if bits == 0 {
        0
    } else {
        let lower: u8 = majority_below(column, (bits - 1) as u8);
        if majority_bit(column, (bits - 1) as u8) {
            lower | (1u8 << ((bits - 1) as u8))
        } else {
            lower
        }
    }
}

/// The byte whose every bit is the winner of the vote on that bit.
pub open spec fn majority_byte(column: Seq<u8>) -> u8 {
    majority_below(column, 8)
}

/// The number of losing copies, summed over the bits below `bits`.
pub open spec fn disagreements_below(column: Seq<u8>, bits: u8) -> nat
    decreases bits,
{
    if bits == 0 {
        0
    } else {
        disagreements_below(column, (bits - 1) as u8) + bit_disagreements(
            column,
            (bits - 1) as u8,
        )
    }
}

/// The number of bit-level disagreements with the majority in one column.
pub open spec fn byte_disagreements(column: Seq<u8>) -> nat {
    disagreements_below(column, 8)
}

/// Whether `buffer` is made of `copies` copies of one length, with at least
/// one copy.
pub open spec fn whole_copies(buffer: Seq<u8>, copies: int) -> bool {
    copies > 0 && (buffer.len() as int) % copies == 0
}

/// The length of one copy in a buffer of `copies` copies.
pub open spec fn copy_len(buffer: Seq<u8>, copies: int) -> int {
    (buffer.len() as int) / copies
}

/// The bytes found at offset `index` of each of the `copies` copies.
pub open spec fn column(buffer: Seq<u8>, copies: int, index: int) -> Seq<u8> {
    Seq::new(copies as nat, |k: int| buffer[k * copy_len(buffer, copies) + index])
}

/// `buffer` after the vote on the column at `index`: every copy holds the
/// majority byte there, and all other bytes are untouched.
pub open spec fn vote_at(buffer: Seq<u8>, copies: int, index: int) -> Seq<u8> {
    Seq::new(
        buffer.len(),
        |j: int|
            if j % copy_len(buffer, copies) == index {
                majority_byte(column(buffer, copies, index))
            } else {
                buffer[j]
            },
    )
}

/// A bit is counted at most once per copy.
pub proof fn lemma_ones_bounded(column: Seq<u8>, bit: u8)
    ensures
        ones(column, bit) <= column.len(),
    decreases column.len(),
{
    if column.len() > 0 {
        lemma_ones_bounded(column.drop_last(), bit);
    }
}

/// The losers of a vote are never more than half the copies.
pub proof fn lemma_bit_disagreements_bounded(column: Seq<u8>, bit: u8)
    ensures
        2 * bit_disagreements(column, bit) <= column.len(),
{
    lemma_ones_bounded(column, bit);
}

/// In a column, each of the eight bits has at most half the copies, rounded
/// down, disagree with the majority.
pub proof fn lemma_byte_disagreements_bounded(column: Seq<u8>)
    ensures
        byte_disagreements(column) <= 8 * (column.len() / 2),
{
    lemma_disagreements_halved(column, 8);
}

proof fn lemma_disagreements_halved(column: Seq<u8>, bits: u8)
    ensures
        disagreements_below(column, bits) <= bits * (column.len() / 2),
    decreases bits,
{
    if bits > 0 {
        let lower: u8 = (bits - 1) as u8;
        lemma_disagreements_halved(column, lower);
        lemma_bit_disagreements_bounded(column, lower);
        let half: int = column.len() as int / 2;
        assert(bits * half == lower * half + half) by (nonlinear_arith)
            requires
                bits == lower + 1,
        ;
    }
}

/// The bits of the majority byte are the winners of the votes, bit by bit.
pub proof fn lemma_majority_byte_bits(column: Seq<u8>, bit: u8)
    requires
        bit < 8,
    ensures
        bit_of(majority_byte(column), bit) == majority_bit(column, bit),
{
    lemma_majority_below_bits(column, 8, bit);
}

/// Below `bits` the byte carries the winners; at and above it every bit is
/// still cleared.
pub proof fn lemma_majority_below_bits(column: Seq<u8>, bits: u8, bit: u8)
    requires
        bits <= 8,
        bit < 8,
    ensures
        bit_of(majority_below(column, bits), bit) == (bit < bits && majority_bit(column, bit)),
    decreases bits,
{
    if bits == 0 {
        assert(!bit_of(0u8, bit)) by (bit_vector);
    } else {
        let top: u8 = (bits - 1) as u8;
        let lower: u8 = majority_below(column, top);
        lemma_majority_below_bits(column, top, bit);
        if majority_bit(column, top) {
            assert(bit_of(lower | (1u8 << top), bit) == (bit_of(lower, bit) || bit == top))
                by (bit_vector)
                requires
                    top < 8,
                    bit < 8,
            ;
        }
    }
}

/// All copies of a column that agree vote for the byte they share, and
/// nobody loses.
pub proof fn lemma_unanimous(column: Seq<u8>, value: u8)
    requires
        column.len() > 0,
        forall|k: int| 0 <= k < column.len() ==> column[k] == value,
    ensures
        majority_byte(column) == value,
        byte_disagreements(column) == 0,
{
    assert forall|bit: u8| bit < 8 implies majority_bit(column, bit) == bit_of(value, bit)
        && bit_disagreements(column, bit) == 0 by {
        lemma_unanimous_ones(column, value, bit);
    }
    lemma_unanimous_below(column, value, 8);
    assert(value & (((1u16 << 8u8) - 1) as u8) == value) by (bit_vector);
}

proof fn lemma_unanimous_ones(column: Seq<u8>, value: u8, bit: u8)
    requires
        forall|k: int| 0 <= k < column.len() ==> column[k] == value,
    ensures
        ones(column, bit) == if bit_of(value, bit) {
            column.len()
        } else {
            0
        },
    decreases column.len(),
{
    if column.len() > 0 {
        lemma_unanimous_ones(column.drop_last(), value, bit);
    }
}

proof fn lemma_unanimous_below(column: Seq<u8>, value: u8, bits: u8)
    requires
        bits <= 8,
        forall|bit: u8|
            bit < 8 ==> majority_bit(column, bit) == bit_of(value, bit) && bit_disagreements(
                column,
                bit,
            ) == 0,
    ensures
        majority_below(column, bits) == value & (((1u16 << bits) - 1) as u8),
        disagreements_below(column, bits) == 0,
    decreases bits,
{
    if bits == 0 {
        assert(value & (((1u16 << 0u8) - 1) as u8) == 0u8) by (bit_vector);
    } else {
        let top: u8 = (bits - 1) as u8;
        lemma_unanimous_below(column, value, top);
        assert(majority_bit(column, top) == bit_of(value, top));
        assert(bit_disagreements(column, top) == 0);
        if bit_of(value, top) {
            assert((value & (((1u16 << top) - 1) as u8)) | (1u8 << top) == value & (((1u16 << (
            top + 1) as u8) - 1) as u8)) by (bit_vector)
                requires
                    top < 8,
                    value & (1u8 << top) != 0,
            ;
        } else {
            assert(value & (((1u16 << top) - 1) as u8) == value & (((1u16 << ((top + 1) as u8))
                - 1) as u8)) by (bit_vector)
                requires
                    top < 8,
                    value & (1u8 << top) == 0,
            ;
        }
    }
}

/// Where the byte at offset `index` of copy `k` sits: inside the buffer, at
/// remainder `index` and quotient `k` of the copy length.
pub proof fn lemma_slot(len: int, copies: int, k: int, index: int)
    requires
        copies > 0,
        len >= 0,
        len % copies == 0,
        0 <= k < copies,
        0 <= index < len / copies,
    ensures
        0 <= k * (len / copies) + index < len,
        (k * (len / copies) + index) % (len / copies) == index,
        (k * (len / copies) + index) / (len / copies) == k,
{
    let size: int = len / copies;
    lemma_fundamental_div_mod(len, copies);
    assert(0 <= k * size && (k + 1) * size <= copies * size && (k + 1) * size == k * size + size)
        by (nonlinear_arith)
        requires
            0 <= k < copies,
            0 < size,
    ;
    lemma_fundamental_div_mod_converse(k * size + index, size, k, index);
}

/// Repairs the column at `index` of a buffer of `n_copies` copies: votes on
/// each of the eight bits, writes the majority byte into every copy and
/// returns the number of bit-level disagreements that were found.
pub fn correct_bits_redundant(buffer: &mut [u8], n_copies: usize, index: usize) -> (errors: u32)
    requires
        0 < n_copies <= MAX_VOTERS,
        whole_copies(old(buffer)@, n_copies as int),
        index < copy_len(old(buffer)@, n_copies as int),
    ensures
        final(buffer)@ == vote_at(old(buffer)@, n_copies as int, index as int),
        errors == byte_disagreements(column(old(buffer)@, n_copies as int, index as int)),
        errors <= 8 * (n_copies / 2),
{
    let data_len: usize = buffer.len() / n_copies;
    let ghost start: Seq<u8> = buffer@;
    let ghost col: Seq<u8> = column(start, n_copies as int, index as int);
    let mut errors: u32 = 0;
    let mut corrected: u8 = 0;
    let mut bit: u8 = 0;
    while bit < 8
        invariant
            bit <= 8,
            0 < n_copies <= MAX_VOTERS,
            buffer@ == start,
            whole_copies(start, n_copies as int),
            data_len == copy_len(start, n_copies as int),
            start.len() <= usize::MAX,
            index < data_len,
            col == column(start, n_copies as int, index as int),
            corrected == majority_below(col, bit),
            errors == disagreements_below(col, bit),
        decreases 8 - bit,
    {
        let mask: u8 = 1u8 << bit;
        let mut set: u32 = 0;
        let mut copy: usize = 0;
        while copy < n_copies
            invariant
                copy <= n_copies <= MAX_VOTERS,
                buffer@ == start,
                whole_copies(start, n_copies as int),
                data_len == copy_len(start, n_copies as int),
                start.len() <= usize::MAX,
                index < data_len,
                col == column(start, n_copies as int, index as int),
                bit < 8,
                mask == 1u8 << bit,
                set == ones(col.take(copy as int), bit),
                set <= copy,
            decreases n_copies - copy,
        {
            proof {
                lemma_slot(start.len() as int, n_copies as int, copy as int, index as int);
                assert(0 <= copy * data_len) by (nonlinear_arith);
                assert(col.take(copy + 1).drop_last() == col.take(copy as int));
            }
            let byte: u8 = buffer[copy * data_len + index];
            if byte & mask != 0 {
                set += 1;
            }
            copy += 1;
        }
        assert(col.take(n_copies as int) == col);
        let cleared: u32 = n_copies as u32 - set;
        proof {
            lemma_disagreements_halved(col, (bit + 1) as u8);
            let half: int = col.len() as int / 2;
            assert((bit + 1) * half <= 8 * half) by (nonlinear_arith)
                requires
                    bit < 8,
                    0 <= half,
            ;
        }
        if cleared < set {
            corrected |= mask;
            errors += cleared;
        } else {
            errors += set;
        }
        bit += 1;
    }
    let mut copy: usize = 0;
    while copy < n_copies
        invariant
            copy <= n_copies,
            0 < n_copies,
            whole_copies(start, n_copies as int),
            data_len == copy_len(start, n_copies as int),
            start.len() <= usize::MAX,
            index < data_len,
            buffer@.len() == start.len(),
            forall|j: int|
                0 <= j < start.len() ==> buffer@[j] == if j % (data_len as int) == index && j / (
                data_len as int) < copy {
                    corrected
                } else {
                    start[j]
                },
        decreases n_copies - copy,
    {
        proof {
            lemma_slot(start.len() as int, n_copies as int, copy as int, index as int);
            assert(0 <= copy * data_len) by (nonlinear_arith);
        }
        buffer[copy * data_len + index] = corrected;
        proof {
            assert forall|j: int| 0 <= j < start.len() implies #[trigger] buffer@[j] == if j % (
            data_len as int) == index && j / (data_len as int) < copy + 1 {
                corrected
            } else {
                start[j]
            } by {
                lemma_fundamental_div_mod(j, data_len as int);
                assert(data_len * copy == copy * data_len) by (nonlinear_arith);
            }
        }
        copy += 1;
    }
    proof {
        let voted: Seq<u8> = vote_at(start, n_copies as int, index as int);
        assert forall|j: int| 0 <= j < start.len() implies #[trigger] buffer@[j] == voted[j] by {
            lemma_fundamental_div_mod(start.len() as int, n_copies as int);
            lemma_fundamental_div_mod(j, data_len as int);
            let q: int = j / (data_len as int);
            assert(q < n_copies) by (nonlinear_arith)
                requires
                    data_len * q <= j,
                    j < n_copies * data_len,
                    data_len > 0,
            ;
        }
        assert(buffer@ =~= vote_at(start, n_copies as int, index as int));
        lemma_byte_disagreements_bounded(col);
    }
    errors
}

} // verus!
