//! Protection policies: what one layer adds to a buffer, how it detects
//! corruption, how it repairs it and how it is (re)derived from the data.
//!
//! Every policy sees its buffer as a data region followed by an overhead
//! region. For `Redundancy(n)` the data is the first of `n` equal copies and
//! the overhead is the other copies; for `ReedSolomon(e)` the overhead is the
//! last `e` bytes, which hold the parity of the data before them.

use vstd::prelude::*;
use vstd::arithmetic::div_mod::{
    lemma_div_basics, lemma_div_is_ordered_by_denominator, lemma_div_pos_is_pos,
    lemma_fundamental_div_mod, lemma_fundamental_div_mod_converse, lemma_mod_pos_bound,
    lemma_small_mod,
};
use crate::codec::{
    rs_correct, rs_corrupt, rs_decode, rs_encode, rs_is_corrupted, rs_parity, MAX_DECODED,
    MAX_ENCODED, MAX_PARITY,
};
use crate::vote::{
    bit_of, byte_disagreements, column, copy_len, correct_bits_redundant,
    lemma_byte_disagreements_bounded, lemma_majority_byte_bits, lemma_slot, lemma_unanimous,
    majority_byte, ones, whole_copies,
};

verus! {

/// The number of slots in a policy stack.
pub const MAX_POLICIES: usize = 3;

/// One protection layer.
#[derive(Copy, Clone, Debug, PartialEq, Eq, Structural)]
pub enum Policy {
    /// No protection; ends a policy stack.
    Nil,
    /// The data is stored this many times over; the count includes the first
    /// copy.
    Redundancy(u32),
    /// The data is followed by this many bytes of Reed-Solomon parity.
    ReedSolomon(u32),
}

/// The three passes that a policy makes over a buffer.
#[derive(Copy, Clone, Debug, PartialEq, Eq, Structural)]
pub enum Pass {
    /// Looking for corruption.
    Probe,
    /// Deriving the overhead from the data.
    Apply,
    /// Repairing corruption.
    Correct,
}

/// Why a buffer could not be repaired.
#[derive(Copy, Clone, Debug, PartialEq, Eq, Structural)]
pub enum CorrectError {
    /// A Reed-Solomon codeword holds more errors than its parity can repair.
    TooManyErrors,
}

/// The outcome of a repair, as a mathematical value: the buffer afterwards,
/// the number of errors that were repaired, and whether every codeword met
/// on the way could be decoded.
pub struct Repaired {
    pub buffer: Seq<u8>,
    pub errors: nat,
    pub complete: bool,
}

impl Repaired {
    /// What the repairing function returns for this outcome.
    pub open spec fn answer(self) -> Result<u32, CorrectError> {
        if self.complete {
            Ok(self.errors as u32)
        } else {
            Err(CorrectError::TooManyErrors)
        }
    }
}

/// The disagreements with the majority, summed over the columns below
/// `upto`.
pub open spec fn vote_errors(buffer: Seq<u8>, copies: int, upto: int) -> nat
    decreases upto,
{
    if upto <= 0 {
        0
    } else {
        vote_errors(buffer, copies, upto - 1) + byte_disagreements(
            column(buffer, copies, upto - 1),
        )
    }
}

impl Policy {
    /// The length of the data region in a buffer of `len` bytes.
    pub open spec fn data_len(self, len: int) -> int {
        match self {
            Policy::Redundancy(copies) => len / (copies as int),
            Policy::ReedSolomon(parity) => len - parity,
            Policy::Nil => len - 1,
        }
    }

    /// Whether a buffer of `len` bytes can be split into data and overhead.
    pub open spec fn splits(self, len: int) -> bool {
        match self {
            Policy::Redundancy(copies) => copies > 0 && len % (copies as int) == 0,
            Policy::ReedSolomon(parity) => parity < len,
            Policy::Nil => 1 <= len,
        }
    }

    /// The most errors that a repair of a buffer of `len` bytes can count.
    /// Under redundancy every column can have each of its eight bits lost by
    /// half the copies, rounded down; under Reed-Solomon the decoder
    /// repairs at most half as many bytes as there is parity.
    pub open spec fn max_errors(self, len: int) -> int {
        match self {
            Policy::Redundancy(copies) => 8 * ((copies as int) / 2) * (len / (copies as int)),
            Policy::ReedSolomon(parity) => (parity as int) / 2,
            Policy::Nil => 0,
        }
    }

    /// Whether `pass` can be made over a buffer of `len` bytes: the buffer
    /// splits, the codec can take it, and what a repair can count fits a
    /// `u32`.
    pub open spec fn admits(self, pass: Pass, len: int) -> bool {
        match self {
            Policy::Redundancy(copies) => {
                &&& self.splits(len)
                &&& pass == Pass::Correct ==> self.max_errors(len) <= u32::MAX
            },
            Policy::ReedSolomon(parity) => {
                &&& self.splits(len)
                &&& pass == Pass::Apply ==> len <= MAX_ENCODED
                &&& pass == Pass::Correct ==> len <= MAX_DECODED && parity <= MAX_PARITY
            },
            Policy::Nil => true,
        }
    }

    /// The size of the buffer that protects `payload` bytes.
    pub open spec fn total_size(self, payload: int) -> int {
        match self {
            Policy::Redundancy(copies) => payload * copies,
            Policy::ReedSolomon(parity) => payload + parity,
            Policy::Nil => payload,
        }
    }

    /// The data region of `buffer`.
    pub open spec fn data_of(self, buffer: Seq<u8>) -> Seq<u8> {
        buffer.subrange(0, self.data_len(buffer.len() as int))
    }

    /// The overhead region of `buffer`.
    pub open spec fn overhead_of(self, buffer: Seq<u8>) -> Seq<u8> {
        buffer.subrange(self.data_len(buffer.len() as int), buffer.len() as int)
    }

    /// Whether the overhead of `buffer` contradicts its data.
    ///
    /// Under redundancy some byte of a later copy differs from the byte at
    /// the same offset of the first copy; under Reed-Solomon the decoder's
    /// fast check fails.
    pub open spec fn corrupted(self, buffer: Seq<u8>) -> bool {
        match self {
            Policy::Redundancy(copies) => exists|j: int|
                0 <= j < buffer.len() && #[trigger] buffer[j] != buffer[j % copy_len(
                    buffer,
                    copies as int,
                )],
            Policy::ReedSolomon(parity) => rs_corrupt(buffer, parity as nat),
            Policy::Nil => false,
        }
    }

    /// `buffer` with its overhead derived anew from its data.
    pub open spec fn applied(self, buffer: Seq<u8>) -> Seq<u8> {
        match self {
            Policy::Redundancy(copies) => Seq::new(
                buffer.len(),
                |j: int| buffer[j % copy_len(buffer, copies as int)],
            ),
            Policy::ReedSolomon(parity) => {
                let data = self.data_of(buffer);
                Seq::new(
                    buffer.len(),
                    |j: int|
                        if j < data.len() {
                            buffer[j]
                        } else {
                            rs_parity(data, parity as nat)[j - data.len()]
                        },
                )
            },
            Policy::Nil => buffer,
        }
    }

    /// The outcome of repairing `buffer`.
    ///
    /// Under redundancy every copy becomes the elected bytes, and each bit
    /// that lost a vote counts as one error. Under Reed-Solomon the buffer
    /// becomes the decoded codeword and the errors are those the decoder
    /// reports; a codeword that cannot be decoded stays as it is.
    pub open spec fn repaired(self, buffer: Seq<u8>) -> Repaired {
        match self {
            Policy::Redundancy(copies) => Repaired {
                buffer: Seq::new(
                    buffer.len(),
                    |j: int|
                        majority_byte(
                            column(buffer, copies as int, j % copy_len(buffer, copies as int)),
                        ),
                ),
                errors: vote_errors(buffer, copies as int, copy_len(buffer, copies as int)),
                complete: true,
            },
            Policy::ReedSolomon(parity) => match rs_decode(buffer, parity as nat) {
                Some((codeword, count)) => Repaired {
                    buffer: Seq::new(buffer.len(), |j: int| codeword[j]),
                    errors: count,
                    complete: true,
                },
                None => Repaired { buffer: buffer, errors: 0, complete: false },
            },
            Policy::Nil => Repaired { buffer: buffer, errors: 0, complete: true },
        }
    }

    /// Splits `buffer` into its data and its overhead.
    pub fn split_buffer<'a>(&self, buffer: &'a [u8]) -> (parts: (&'a [u8], &'a [u8]))
        requires
            self.splits(buffer@.len() as int),
        ensures
            parts.0@ == self.data_of(buffer@),
            parts.1@ == self.overhead_of(buffer@),
    {
        let len: usize = buffer.len();
        match self {
            Policy::Redundancy(n_copies) => {
                let data_len: usize = len / (*n_copies as usize);
                proof {
                    lemma_copy_fits(len as int, *n_copies as int);
                }
                buffer.split_at(data_len)
            },
            Policy::ReedSolomon(n_ecc) => {
                let data_len: usize = len - (*n_ecc as usize);
                buffer.split_at(data_len)
            },
            Policy::Nil => buffer.split_at(len - 1),
        }
    }

    /// Splits `buffer` into its data and its overhead, both to be written.
    pub fn split_buffer_mut<'a>(&self, buffer: &'a mut [u8]) -> (parts: (
        &'a mut [u8],
        &'a mut [u8],
    ))
        requires
            self.splits(old(buffer)@.len() as int),
        ensures
            parts.0@ == self.data_of(old(buffer)@),
            parts.1@ == self.overhead_of(old(buffer)@),
            final(buffer)@ == final(parts.0)@ + final(parts.1)@,
    {
        let len: usize = buffer.len();
        match self {
            Policy::Redundancy(n_copies) => {
                let data_len: usize = len / (*n_copies as usize);
                proof {
                    lemma_copy_fits(len as int, *n_copies as int);
                }
                buffer.split_at_mut(data_len)
            },
            Policy::ReedSolomon(n_ecc) => {
                let data_len: usize = len - (*n_ecc as usize);
                buffer.split_at_mut(data_len)
            },
            Policy::Nil => buffer.split_at_mut(len - 1),
        }
    }

    /// The data region of `buffer`.
    pub fn get_data<'a>(&self, buffer: &'a [u8]) -> (data: &'a [u8])
        requires
            self.splits(buffer@.len() as int),
        ensures
            data@ == self.data_of(buffer@),
    {
        let (data, _) = self.split_buffer(buffer);
        data
    }

    /// The data region of `buffer`, to be written; the overhead stays as it
    /// is.
    pub fn get_data_mut<'a>(&self, buffer: &'a mut [u8]) -> (data: &'a mut [u8])
        requires
            self.splits(old(buffer)@.len() as int),
        ensures
            data@ == self.data_of(old(buffer)@),
            final(buffer)@ == final(data)@ + self.overhead_of(old(buffer)@),
    {
        let (data, _) = self.split_buffer_mut(buffer);
        data
    }

    /// Whether `pass` can be made over a buffer of `len` bytes.
    pub fn permits(&self, pass: Pass, len: usize) -> (ok: bool)
        ensures
            ok == self.admits(pass, len as int),
    {
        match self {
            Policy::Redundancy(n_copies) => {
                if *n_copies == 0 || len % (*n_copies as usize) != 0 {
                    return false;
                }
                if !matches!(pass, Pass::Correct) {
                    return true;
                }
                let per_column: u128 = 8 * ((*n_copies / 2) as u128);
                let columns: u128 = (len / (*n_copies as usize)) as u128;
                assert(per_column * columns <= 0x4_0000_0000 * 0x1_0000_0000_0000_0000)
                    by (nonlinear_arith)
                    requires
                        0 <= per_column <= 0x4_0000_0000,
                        0 <= columns <= 0x1_0000_0000_0000_0000,
                ;
                per_column * columns <= u32::MAX as u128
            },
            Policy::ReedSolomon(n_ecc) => {
                (*n_ecc as usize) < len && match pass {
                    Pass::Probe => true,
                    Pass::Apply => len <= MAX_ENCODED,
                    Pass::Correct => len <= MAX_DECODED && (*n_ecc as usize) <= MAX_PARITY,
                }
            },
            Policy::Nil => true,
        }
    }

    /// The length of the data region in a buffer of `len` bytes.
    pub fn data_length(&self, len: usize) -> (data: usize)
        requires
            self.splits(len as int),
        ensures
            data == self.data_len(len as int),
    {
        match self {
            Policy::Redundancy(n_copies) => len / (*n_copies as usize),
            Policy::ReedSolomon(n_ecc) => len - (*n_ecc as usize),
            Policy::Nil => len - 1,
        }
    }

    /// The size of the buffer that protects `payload` bytes, or nothing when
    /// that size does not fit a `usize`.
    pub fn size_overhead(&self, payload: usize) -> (total: Option<usize>)
        ensures
            total == if self.total_size(payload as int) <= usize::MAX {
                Some(self.total_size(payload as int) as usize)
            } else {
                None
            },
    {
        match self {
            Policy::Redundancy(num_copies) => payload.checked_mul(*num_copies as usize),
            Policy::ReedSolomon(n_ecc) => payload.checked_add(*n_ecc as usize),
            Policy::Nil => Some(payload),
        }
    }

    /// Whether the overhead of `buffer` contradicts its data.
    pub fn is_corrupted(&self, buffer: &[u8]) -> (corrupt: bool)
        requires
            self.admits(Pass::Probe, buffer@.len() as int),
        ensures
            corrupt == self.corrupted(buffer@),
    {
        match self {
            Policy::Redundancy(copies) => {
                let n_copies: usize = *copies as usize;
                let len: usize = buffer.len();
                let data: &[u8] = self.get_data(buffer);
                let data_len: usize = data.len();
                let mut byte: usize = 0;
                proof {
                    lemma_copy_fits(len as int, n_copies as int);
                    assert forall|j: int|
                        0 <= j < buffer@.len() && j % (data_len as int)
                            < 0 implies #[trigger] buffer@[j] == buffer@[j % (
                    data_len as int)] by {
                        lemma_quotient_below(len as int, n_copies as int, j);
                    }
                }
                while byte < data_len
                    invariant
                        byte <= data_len,
                        0 < n_copies,
                        *self == Policy::Redundancy(*copies),
                        n_copies == *copies,
                        len == buffer@.len(),
                        whole_copies(buffer@, n_copies as int),
                        data_len == copy_len(buffer@, n_copies as int),
                        buffer@.len() <= usize::MAX,
                        forall|j: int|
                            0 <= j < buffer@.len() && j % (data_len as int) < byte
                                ==> #[trigger] buffer@[j] == buffer@[j % (data_len as int)],
                    decreases data_len - byte,
                {
                    let val: u8 = buffer[byte];
                    let mut copy: usize = 1;
                    proof {
                        assert forall|j: int|
                            0 <= j < buffer@.len() && j % (data_len as int) == byte && j / (
                            data_len as int) < 1 implies #[trigger] buffer@[j] == val by {
                            lemma_quotient_below(len as int, n_copies as int, j);
                            let q: int = j / (data_len as int);
                            assert(q * data_len == 0) by (nonlinear_arith)
                                requires
                                    q == 0,
                            ;
                        }
                    }
                    while copy < n_copies
                        invariant
                            1 <= copy <= n_copies,
                            byte < data_len,
                            *self == Policy::Redundancy(*copies),
                            n_copies == *copies,
                            whole_copies(buffer@, n_copies as int),
                            data_len == copy_len(buffer@, n_copies as int),
                            buffer@.len() <= usize::MAX,
                            val == buffer@[byte as int],
                            forall|j: int|
                                0 <= j < buffer@.len() && j % (data_len as int) == byte && j / (
                                data_len as int) < copy ==> #[trigger] buffer@[j] == val,
                        decreases n_copies - copy,
                    {
                        proof {
                            lemma_slot(
                                buffer@.len() as int,
                                n_copies as int,
                                copy as int,
                                byte as int,
                            );
                            assert(0 <= copy * data_len) by (nonlinear_arith);
                        }
                        if val != buffer[copy * data_len + byte] {
                            proof {
                                let j: int = copy * data_len + byte;
                                assert(buffer@[j] != buffer@[j % copy_len(
                                    buffer@,
                                    n_copies as int,
                                )]);
                            }
                            return true;
                        }
                        proof {
                            assert forall|j: int|
                                0 <= j < buffer@.len() && j % (data_len as int) == byte && j / (
                                data_len as int) < copy + 1 implies #[trigger] buffer@[j]
                                == val by {
                                lemma_fundamental_div_mod(j, data_len as int);
                                assert(data_len * copy == copy * data_len) by (nonlinear_arith);
                            }
                        }
                        copy += 1;
                    }
                    proof {
                        assert forall|j: int|
                            0 <= j < buffer@.len() && j % (data_len as int) < byte
                                + 1 implies #[trigger] buffer@[j] == buffer@[j % (
                        data_len as int)] by {
                            lemma_quotient_below(
                                buffer@.len() as int,
                                n_copies as int,
                                j,
                            );
                        }
                    }
                    byte += 1;
                }
                proof {
                    assert forall|j: int| 0 <= j < buffer@.len() implies #[trigger] buffer@[j]
                        == buffer@[j % (data_len as int)] by {
                        lemma_quotient_below(buffer@.len() as int, n_copies as int, j);
                    }
                }
                false
            },
            Policy::ReedSolomon(n_ecc) => rs_is_corrupted(buffer, *n_ecc as usize),
            Policy::Nil => false,
        }
    }

    /// Repairs `buffer` and reports how many errors were repaired.
    ///
    /// This is meant for a buffer to which the policy was applied, and
    /// should run before the data is read.
    pub fn correct_buffer(&self, buffer: &mut [u8]) -> (answer: Result<u32, CorrectError>)
        requires
            self.admits(Pass::Correct, old(buffer)@.len() as int),
        ensures
            final(buffer)@ == self.repaired(old(buffer)@).buffer,
            answer == self.repaired(old(buffer)@).answer(),
            answer is Ok ==> self.repaired(old(buffer)@).errors <= self.max_errors(
                old(buffer)@.len() as int,
            ),
            !(self is ReedSolomon) ==> answer is Ok && !self.corrupted(final(buffer)@),
    {
        let len: usize = buffer.len();
        let ghost start: Seq<u8> = buffer@;
        match self {
            Policy::Redundancy(copies) => {
                let n_copies: usize = *copies as usize;
                let data_len: usize = len / n_copies;
                let mut total: u32 = 0;
                proof {
                    lemma_vote_repairs(start, n_copies as int);
                }
                let mut index: usize = 0;
                proof {
                    assert forall|j: int| 0 <= j < len implies 0 <= #[trigger] (j % (
                    data_len as int)) by {
                        lemma_quotient_below(len as int, n_copies as int, j);
                    }
                }
                while index < data_len
                    invariant
                        index <= data_len,
                        whole_copies(start, n_copies as int),
                        data_len == copy_len(start, n_copies as int),
                        len == start.len(),
                        8 * (n_copies / 2) * data_len <= u32::MAX,
                        buffer@.len() == len,
                        forall|j: int|
                            0 <= j < len ==> #[trigger] buffer@[j] == if j % (data_len as int)
                                < index {
                                majority_byte(column(start, n_copies as int, j % (data_len as int)))
                            } else {
                                start[j]
                            },
                        total == vote_errors(start, n_copies as int, index as int),
                    decreases data_len - index,
                {
                    let ghost before: Seq<u8> = buffer@;
                    proof {
                        let half: int = n_copies as int / 2;
                        assert(8 * half <= 8 * half * data_len && 8 * half * (index + 1) <= 8
                            * half * data_len && 8 * half * index + 8 * half == 8 * half * (index
                            + 1)) by (nonlinear_arith)
                            requires
                                0 <= half,
                                0 <= index < data_len,
                        ;
                        assert(column(before, n_copies as int, index as int) =~= column(
                            start,
                            n_copies as int,
                            index as int,
                        )) by {
                            assert forall|k: int| 0 <= k < n_copies implies #[trigger] column(
                                before,
                                n_copies as int,
                                index as int,
                            )[k] == column(start, n_copies as int, index as int)[k] by {
                                lemma_slot(len as int, n_copies as int, k, index as int);
                            }
                        }
                        lemma_vote_errors_bounded(start, n_copies as int, index as int);
                    }
                    let found: u32 = correct_bits_redundant(buffer, n_copies, index);
                    total += found;
                    index += 1;
                }
                proof {
                    lemma_vote_errors_bounded(start, n_copies as int, data_len as int);
                    let goal: Seq<u8> = self.repaired(start).buffer;
                    assert forall|j: int| 0 <= j < len implies #[trigger] buffer@[j]
                        == goal[j] by {
                        lemma_quotient_below(len as int, n_copies as int, j);
                    }
                    assert(buffer@ =~= goal);
                }
                Ok(total)
            },
            Policy::ReedSolomon(correction_bits) => {
                let outcome = rs_correct(buffer, *correction_bits as usize);
                proof {
                    if outcome is Ok {
                        assert(self.repaired(start).buffer =~= outcome->Ok_0.0@);
                    }
                }
                self.accept_decoded(buffer, outcome)
            },
            Policy::Nil => Ok(0),
        }
    }

    /// Takes the decoder's answer for `buffer`: a repaired codeword is
    /// written over the data and the overhead, and its count of errors is the
    /// answer; the decoder's failure leaves the buffer as it is.
    pub fn accept_decoded(
        &self,
        buffer: &mut [u8],
        outcome: Result<(Vec<u8>, usize), reed_solomon::DecoderError>,
    ) -> (answer: Result<u32, CorrectError>)
        requires
            self.splits(old(buffer)@.len() as int),
            outcome matches Ok((corrected, n_errors)) ==> corrected@.len() == old(buffer)@.len()
                && n_errors <= u32::MAX,
        ensures
            match outcome {
                Ok((corrected, n_errors)) => final(buffer)@ == corrected@ && answer == Ok::<
                    u32,
                    CorrectError,
                >(n_errors as u32),
                Err(_) => final(buffer)@ == old(buffer)@ && answer == Err::<u32, CorrectError>(
                    CorrectError::TooManyErrors,
                ),
            },
    {
        match outcome {
            Ok((corrected, n_errors)) => {
                let (data, ecc) = self.split_buffer_mut(buffer);
                let data_len: usize = data.len();
                copy_from(data, corrected.as_slice(), 0);
                copy_from(ecc, corrected.as_slice(), data_len);
                proof {
                    assert(data@ + ecc@ =~= corrected@);
                }
                Ok(n_errors as u32)
            },
            Err(_) => Err(CorrectError::TooManyErrors),
        }
    }

    /// Writes `overhead` over the overhead region of `buffer`; the data
    /// stays as it is.
    pub fn write_overhead(&self, buffer: &mut [u8], overhead: &[u8])
        requires
            self.splits(old(buffer)@.len() as int),
            overhead@.len() == old(buffer)@.len() - self.data_len(old(buffer)@.len() as int),
        ensures
            final(buffer)@ == self.data_of(old(buffer)@) + overhead@,
    {
        let (_, err) = self.split_buffer_mut(buffer);
        copy_from(err, overhead, 0);
        proof {
            assert(overhead@.subrange(0, overhead@.len() as int) =~= overhead@);
        }
    }

    /// Derives the overhead of `buffer` from its data, which is taken to be
    /// correct: under redundancy every other copy becomes the first one,
    /// under Reed-Solomon the parity is computed anew.
    ///
    /// This is how a buffer is set up, and what has to follow every write.
    pub fn apply_policy(&self, buffer: &mut [u8])
        requires
            self.admits(Pass::Apply, old(buffer)@.len() as int),
        ensures
            final(buffer)@ == self.applied(old(buffer)@),
            *self != Policy::ReedSolomon(255) ==> !self.corrupted(final(buffer)@),
    {
        let len: usize = buffer.len();
        let ghost start: Seq<u8> = buffer@;
        match self {
            Policy::Redundancy(copies) => {
                let n_copies: usize = *copies as usize;
                let data_len: usize = len / n_copies;
                let (data, err) = self.split_buffer_mut(buffer);
                let ghost goal: Seq<u8> = final(err)@;
                let ghost mut done: Seq<u8> = Seq::empty();
                let mut rest: &mut [u8] = err;
                let mut copy: usize = 1;
                proof {
                    lemma_fundamental_div_mod(len as int, n_copies as int);
                    assert((n_copies - 1) * data_len == n_copies * data_len - data_len && (1 - 1)
                        * data_len == 0) by (nonlinear_arith);
                }
                while copy < n_copies
                    invariant
                        1 <= copy <= n_copies,
                        data@.len() == data_len,
                        rest@.len() == (n_copies - copy) * data_len,
                        goal == done + final(rest)@,
                        done.len() == (copy - 1) * data_len,
                        forall|j: int|
                            0 <= j < done.len() ==> #[trigger] done[j] == data@[j % (
                            data_len as int)],
                    decreases n_copies - copy,
                {
                    proof {
                        assert((n_copies - copy) * data_len == (n_copies - copy - 1) * data_len
                            + data_len && (copy - 1) * data_len + data_len == copy * data_len
                            && 0 <= (copy - 1) * data_len) by (nonlinear_arith)
                            requires
                                1 <= copy < n_copies,
                        ;
                    }
                    let (slot, tail) = rest.split_at_mut(data_len);
                    copy_from(slot, data, 0);
                    proof {
                        let grown: Seq<u8> = done + slot@;
                        assert forall|j: int| 0 <= j < grown.len() implies #[trigger] grown[j]
                            == data@[j % (data_len as int)] by {
                            if j >= done.len() {
                                lemma_fundamental_div_mod_converse(
                                    j,
                                    data_len as int,
                                    copy - 1,
                                    j - done.len(),
                                );
                            }
                        }
                        assert(done + (slot@ + final(tail)@) =~= grown + final(tail)@);
                        done = grown;
                    }
                    rest = tail;
                    copy += 1;
                }
                proof {
                    assert(rest@.len() == 0) by (nonlinear_arith)
                        requires
                            rest@.len() == (n_copies - copy) * data_len,
                            copy == n_copies,
                    ;
                    assert(final(rest)@ =~= Seq::<u8>::empty());
                    assert(goal =~= done);
                    let result: Seq<u8> = data@ + done;
                    let wanted: Seq<u8> = self.applied(start);
                    assert(result.len() == len) by (nonlinear_arith)
                        requires
                            result.len() == data_len + (n_copies - 1) * data_len,
                            len == n_copies * data_len,
                    ;
                    assert forall|j: int| 0 <= j < len implies #[trigger] result[j]
                        == wanted[j] by {
                        lemma_quotient_below(len as int, n_copies as int, j);
                        if j >= data_len {
                            let q: int = j / (data_len as int);
                            assert((q - 1) * data_len == q * data_len - data_len)
                                by (nonlinear_arith);
                            lemma_fundamental_div_mod_converse(
                                j - data_len,
                                data_len as int,
                                j / (data_len as int) - 1,
                                j % (data_len as int),
                            );
                        } else {
                            lemma_small_mod(j as nat, data_len as nat);
                        }
                    }
                    assert(result =~= wanted);
                    lemma_replica_is_clean(start, n_copies as int);
                }
            },
            Policy::ReedSolomon(correction_bits) => {
                let parity: Vec<u8> = rs_encode(self.get_data(buffer), *correction_bits as usize);
                self.write_overhead(buffer, parity.as_slice());
                proof {
                    assert(buffer@ =~= self.applied(start));
                }
            },
            Policy::Nil => (),
        }
    }
}

/// Copies into `dest` the bytes of `src` that begin at `start`.
pub(crate) fn copy_from(dest: &mut [u8], src: &[u8], start: usize)
    requires
        start + old(dest)@.len() <= src@.len(),
    ensures
        final(dest)@ == src@.subrange(start as int, start + old(dest)@.len()),
{
    let len: usize = dest.len();
    let available: usize = src.len();
    let mut i: usize = 0;
    while i < len
        invariant
            i <= len,
            dest@.len() == len,
            start + len <= src@.len() == available,
            forall|j: int| 0 <= j < i ==> #[trigger] dest@[j] == src@[start + j],
        decreases len - i,
    {
        dest[i] = src[start + i];
        i += 1;
    }
    assert(dest@ =~= src@.subrange(start as int, start + len));
}

/// Over the columns below `upto`, a vote finds in each column at most eight
/// times half the copies in disagreement.
pub proof fn lemma_vote_errors_bounded(buffer: Seq<u8>, copies: int, upto: int)
    requires
        0 <= copies,
        0 <= upto,
    ensures
        vote_errors(buffer, copies, upto) <= 8 * (copies / 2) * upto,
    decreases upto,
{
    let half: int = copies / 2;
    if upto > 0 {
        lemma_vote_errors_bounded(buffer, copies, upto - 1);
        lemma_byte_disagreements_bounded(column(buffer, copies, upto - 1));
        assert(8 * half * upto == 8 * half * (upto - 1) + 8 * half) by (nonlinear_arith);
    } else {
        assert(8 * half * upto == 0) by (nonlinear_arith)
            requires
                upto == 0,
        ;
    }
}

/// Copies made from the first copy agree with it.
pub proof fn lemma_replica_is_clean(buffer: Seq<u8>, copies: int)
    requires
        whole_copies(buffer, copies),
        0 < copies <= u32::MAX,
    ensures
        !Policy::Redundancy(copies as u32).corrupted(
            Policy::Redundancy(copies as u32).applied(buffer),
        ),
{
    let policy = Policy::Redundancy(copies as u32);
    let made: Seq<u8> = policy.applied(buffer);
    let size: int = copy_len(buffer, copies);
    assert(copy_len(made, copies) == size);
    assert forall|j: int| 0 <= j < made.len() implies #[trigger] made[j] == made[j % size] by {
        lemma_quotient_below(buffer.len() as int, copies, j);
        lemma_small_mod((j % size) as nat, size as nat);
    }
}

/// A position in a buffer of whole copies lies in one of the copies, at an
/// offset within the copy.
pub proof fn lemma_quotient_below(len: int, copies: int, j: int)
    requires
        copies > 0,
        len % copies == 0,
        0 <= j < len,
    ensures
        0 < len / copies,
        0 <= j / (len / copies) < copies,
        0 <= j % (len / copies) < len / copies,
        j == (j / (len / copies)) * (len / copies) + j % (len / copies),
{
    let size: int = len / copies;
    lemma_fundamental_div_mod(len, copies);
    assert(size > 0) by (nonlinear_arith)
        requires
            len == copies * size,
            len > 0,
            copies > 0,
    ;
    lemma_fundamental_div_mod(j, size);
    lemma_mod_pos_bound(j, size);
    let q: int = j / size;
    assert(0 <= q < copies && q * size == size * q) by (nonlinear_arith)
        requires
            j == size * q + j % size,
            0 <= j % size < size,
            0 <= j < copies * size,
            size > 0,
    ;
}

/// One copy is never longer than the buffer of copies.
pub proof fn lemma_copy_fits(len: int, copies: int)
    requires
        0 <= len,
        0 < copies,
    ensures
        0 <= len / copies <= len,
{
    lemma_div_pos_is_pos(len, copies);
    lemma_div_is_ordered_by_denominator(len, 1, copies);
    lemma_div_basics(len);
}

/// A column whose copies all agree is left alone by the vote, at no cost.
pub proof fn lemma_agreeing_copies(buffer: Seq<u8>, copies: int)
    requires
        whole_copies(buffer, copies),
        copies <= u32::MAX,
        !Policy::Redundancy(copies as u32).corrupted(buffer),
    ensures
        Policy::Redundancy(copies as u32).repaired(buffer) == (Repaired {
            buffer: buffer,
            errors: 0,
            complete: true,
        }),
{
    let policy = Policy::Redundancy(copies as u32);
    let len: int = buffer.len() as int;
    let size: int = copy_len(buffer, copies);
    let outcome: Repaired = policy.repaired(buffer);
    assert forall|i: int| 0 <= i < size implies majority_byte(#[trigger] column(buffer, copies, i))
        == buffer[i] && byte_disagreements(column(buffer, copies, i)) == 0 by {
        let col: Seq<u8> = column(buffer, copies, i);
        assert forall|k: int| 0 <= k < col.len() implies col[k] == buffer[i] by {
            lemma_slot(len, copies, k, i);
            let j: int = k * size + i;
            assert(buffer[j] == buffer[j % size]);
        }
        lemma_unanimous(col, buffer[i]);
    }
    assert forall|j: int| 0 <= j < len implies #[trigger] outcome.buffer[j] == buffer[j] by {
        lemma_quotient_below(len, copies, j);
        assert(buffer[j] == buffer[j % size]);
    }
    assert(outcome.buffer =~= buffer);
    lemma_no_vote_errors(buffer, copies, size);
}

proof fn lemma_no_vote_errors(buffer: Seq<u8>, copies: int, upto: int)
    requires
        forall|i: int|
            0 <= i < upto ==> byte_disagreements(#[trigger] column(buffer, copies, i)) == 0,
    ensures
        vote_errors(buffer, copies, upto) == 0,
    decreases upto,
{
    if upto > 0 {
        lemma_no_vote_errors(buffer, copies, upto - 1);
        assert(byte_disagreements(column(buffer, copies, upto - 1)) == 0);
    }
}

/// Whatever the copies of a buffer hold, the repair of a redundancy layer
/// leaves at every position the byte elected by the bitwise majority of the
/// bytes that the copies held at that offset, a tie going to the cleared
/// bit; and the layer finds no corruption in what the repair leaves.
pub proof fn lemma_vote_repairs(buffer: Seq<u8>, copies: int)
    requires
        whole_copies(buffer, copies),
        copies <= u32::MAX,
    ensures
        Policy::Redundancy(copies as u32).repaired(buffer).complete,
        !Policy::Redundancy(copies as u32).corrupted(
            Policy::Redundancy(copies as u32).repaired(buffer).buffer,
        ),
        forall|j: int|
            0 <= j < buffer.len() ==> #[trigger] Policy::Redundancy(copies as u32).repaired(
                buffer,
            ).buffer[j] == majority_byte(
                column(buffer, copies, j % copy_len(buffer, copies)),
            ),
        forall|i: int, bit: u8|
            #![trigger bit_of(majority_byte(column(buffer, copies, i)), bit)]
            0 <= i < copy_len(buffer, copies) && bit < 8 ==> bit_of(
                majority_byte(column(buffer, copies, i)),
                bit,
            ) == (2 * ones(column(buffer, copies, i), bit) > copies),
{
    let policy = Policy::Redundancy(copies as u32);
    let len: int = buffer.len() as int;
    let size: int = copy_len(buffer, copies);
    let made: Seq<u8> = policy.repaired(buffer).buffer;
    assert(copy_len(made, copies) == size);
    assert forall|j: int| 0 <= j < made.len() implies #[trigger] made[j] == made[j % size] by {
        lemma_quotient_below(len, copies, j);
        lemma_small_mod((j % size) as nat, size as nat);
    }
    assert forall|i: int, bit: u8|
        #![trigger bit_of(majority_byte(column(buffer, copies, i)), bit)]
        0 <= i < size && bit < 8 implies bit_of(majority_byte(column(buffer, copies, i)), bit) == (
    2 * ones(column(buffer, copies, i), bit) > copies) by {
        lemma_majority_byte_bits(column(buffer, copies, i), bit);
    }
}

} // verus!
