//! The allocation block: a header and the protected buffer that it
//! describes.
//!
//! The buffer holds the caller's payload wrapped in the overhead of every
//! layer of the block's policy stack. Its size follows from the payload
//! length and the stack alone, so that it can be derived again whenever the
//! block is resized or released.

use vstd::prelude::*;
use vstd::arithmetic::div_mod::lemma_fundamental_div_mod;
use crate::policies::{CorrectError, Pass, Policy, Repaired, MAX_POLICIES};
use crate::stack::{
    active, each_applied, each_repaired, joined, lemma_applied_keeps_data,
    lemma_applied_len, lemma_applied_reads_data, lemma_data_inside, lemma_each_applied_len,
    lemma_copies_repair_completes, lemma_each_repaired_len, lemma_max_errors_nonnegative,
    lemma_repaired_len, lemma_size_fits_inward, only_copies, stack_admits, stack_applied,
    stack_corrupted, stack_max_errors, stack_repaired, stack_size, stack_size_fits,
    stack_walkable,
};
use crate::weak::{WeakMut, Weakable};

verus! {

/// The alignment at which a block is requested from the memory provider.
pub const BLOCK_ALIGN: usize = 16;

/// The size of the header that precedes the buffer of a block in the memory
/// of a foreign caller: three policies of sixteen bytes each, two sizes of
/// eight bytes and the flag, padded to a multiple of eight.
pub const HEADER_SIZE: usize = 72;

/// A block as a mathematical value.
pub struct BlockView {
    /// The policy stack, outermost layer first.
    pub policies: Seq<Policy>,
    /// The length of the payload that the caller asked for.
    pub length: nat,
    /// The stored bytes: the payload and all overhead.
    pub buffer: Seq<u8>,
    /// Whether an exclusive view of the block is outstanding.
    pub writer: bool,
}

/// The header of an allocation together with its storage.
pub struct AllocBlock {
    policies: [Policy; MAX_POLICIES],
    buffer_size: usize,
    length: usize,
    weak_exists: bool,
    storage: Vec<u8>,
}

impl View for AllocBlock {
    type V = BlockView;

    closed spec fn view(&self) -> BlockView {
        BlockView {
            policies: self.policies@,
            length: self.length as nat,
            buffer: self.storage@,
            writer: self.weak_exists,
        }
    }
}

impl Weakable for AllocBlock {
    closed spec fn writer_flag(&self) -> bool {
        self.weak_exists
    }

    closed spec fn with_writer_flag(self, flag: bool) -> Self {
        AllocBlock { weak_exists: flag, ..self }
    }

    proof fn lemma_writer_flag(self, first: bool, second: bool) {
    }

    fn weak_exists(&self) -> (exists: bool) {
        self.weak_exists
    }

    fn set_weak_exists(&mut self) {
        self.weak_exists = true;
    }

    fn reset_weak_exists(&mut self) {
        self.weak_exists = false;
    }
}

/// `len` bytes of zero.
pub open spec fn zeros(len: nat) -> Seq<u8> {
    Seq::new(len, |j: int| 0u8)
}

/// `buffer` cut or grown to `len` bytes; the bytes it gains are zero.
pub open spec fn resized(buffer: Seq<u8>, len: nat) -> Seq<u8> {
    Seq::new(
        len,
        |j: int|
            if j < buffer.len() {
                buffer[j]
            } else {
                0u8
            },
    )
}

/// The bytes that a block takes from the memory provider: its header and a
/// buffer of `buffer_size` bytes.
pub open spec fn block_extent(buffer_size: int) -> int {
    buffer_size + HEADER_SIZE
}

/// Whether a block for `payload` bytes under `policies` can be requested:
/// every size on the way to its buffer size fits a `usize`, and its extent,
/// rounded up to the alignment, fits an `isize`.
pub open spec fn layout_valid(policies: Seq<Policy>, payload: int) -> bool {
    &&& stack_size_fits(policies, 0, payload)
    &&& block_extent(stack_size(policies, 0, payload)) <= isize::MAX - (BLOCK_ALIGN - 1)
}

impl AllocBlock {
    /// The buffer size that the header records.
    pub closed spec fn recorded_size(&self) -> nat {
        self.buffer_size as nat
    }

    /// The invariant of a live block: the buffer is as large as the header
    /// says, and that is the size which the payload length and the policy
    /// stack give; the block's layout is one that can be requested.
    pub open spec fn wf(&self) -> bool {
        &&& self@.policies.len() == MAX_POLICIES
        &&& self@.buffer.len() == self.recorded_size()
        &&& self@.buffer.len() == stack_size(self@.policies, 0, self@.length as int)
        &&& layout_valid(self@.policies, self@.length as int)
    }

    /// The total buffer size for `desired_size` bytes of payload under
    /// `policies`, or nothing when a size on the way does not fit a `usize`.
    pub fn size_of(desired_size: usize, policies: &[Policy; MAX_POLICIES]) -> (total: Option<
        usize,
    >)
        ensures
            match total {
                Some(size) => stack_size_fits(policies@, 0, desired_size as int) && size
                    == stack_size(policies@, 0, desired_size as int),
                None => !stack_size_fits(policies@, 0, desired_size as int),
            },
    {
        let mut depth: usize = 0;
        while depth < MAX_POLICIES && !matches!(policies[depth], Policy::Nil)
            invariant
                depth <= MAX_POLICIES,
                forall|i: int| 0 <= i < depth ==> active(policies@, i),
            decreases MAX_POLICIES - depth,
        {
            depth += 1;
        }
        let mut buffer_size: usize = desired_size;
        let mut index: usize = depth;
        while index > 0
            invariant
                index <= depth <= MAX_POLICIES,
                forall|i: int| 0 <= i < depth ==> active(policies@, i),
                !active(policies@, depth as int),
                buffer_size == stack_size(policies@, index as int, desired_size as int),
                stack_size_fits(policies@, index as int, desired_size as int),
            decreases index,
        {
            index -= 1;
            match policies[index].size_overhead(buffer_size) {
                Some(wrapped) => {
                    buffer_size = wrapped;
                },
                None => {
                    proof {
                        if stack_size_fits(policies@, 0, desired_size as int) {
                            lemma_size_fits_inward(
                                policies@,
                                0,
                                desired_size as int,
                                index as int,
                            );
                        }
                    }
                    return None;
                },
            }
        }
        Some(buffer_size)
    }

    /// The extent of a block with a buffer of `buffer_size` bytes, or nothing
    /// when that extent cannot be requested at the block's alignment.
    pub fn extent_of(buffer_size: usize) -> (extent: Option<usize>)
        ensures
            match extent {
                Some(bytes) => bytes == block_extent(buffer_size as int) && bytes <= isize::MAX
                    - (BLOCK_ALIGN - 1),
                None => block_extent(buffer_size as int) > isize::MAX - (BLOCK_ALIGN - 1),
            },
    {
        let limit: usize = (isize::MAX as usize) - (BLOCK_ALIGN - 1);
        match buffer_size.checked_add(HEADER_SIZE) {
            Some(extent) if extent <= limit => Some(extent),
            _ => None,
        }
    }

    /// Whether any layer, looking at the data region of the one outside it,
    /// reports corruption. This is cheaper than a repair: under redundancy
    /// it looks into the first copy only.
    pub fn is_corrupted_helper(
        policies: &[Policy; MAX_POLICIES],
        index: usize,
        full_buffer: &[u8],
    ) -> (corrupt: bool)
        requires
            index <= MAX_POLICIES,
            stack_admits(policies@, index as int, Pass::Probe, full_buffer@.len() as int),
        ensures
            corrupt == stack_corrupted(policies@, index as int, full_buffer@),
        decreases MAX_POLICIES - index,
    {
        if index == MAX_POLICIES {
            return false;
        }
        let policy: Policy = policies[index];
        let inner: bool = match policy {
            Policy::Nil => {
                return false;
            },
            _ => Self::is_corrupted_helper(policies, index + 1, policy.get_data(full_buffer)),
        };
        inner || policy.is_corrupted(full_buffer)
    }

    /// Derives the overhead of every layer from `index` inward, innermost
    /// first. Under redundancy every copy has its inner layers derived
    /// before the copies are made equal to the first.
    pub fn apply_policy_helper(
        policies: &[Policy; MAX_POLICIES],
        index: usize,
        full_buffer: &mut [u8],
    )
        requires
            index <= MAX_POLICIES,
            stack_admits(policies@, index as int, Pass::Apply, old(full_buffer)@.len() as int),
        ensures
            final(full_buffer)@ == stack_applied(policies@, index as int, old(full_buffer)@),
            stack_admits(policies@, index as int, Pass::Correct, old(full_buffer)@.len() as int)
                ==> !stack_corrupted(policies@, index as int, final(full_buffer)@),
        decreases MAX_POLICIES - index, 0int,
    {
        if index == MAX_POLICIES {
            return;
        }
        let ghost start: Seq<u8> = full_buffer@;
        let len: usize = full_buffer.len();
        let policy: Policy = policies[index];
        match policy {
            Policy::Nil => {
                return;
            },
            Policy::Redundancy(n_copies) => {
                let data_len: usize = len / (n_copies as usize);
                proof {
                    lemma_fundamental_div_mod(len as int, n_copies as int);
                    assert(data_len * n_copies == n_copies * data_len) by (nonlinear_arith);
                    lemma_each_applied_len(
                        policies@,
                        index + 1,
                        start,
                        data_len as int,
                        n_copies as int,
                    );
                    lemma_applied_len(policies@, index + 1, policy.data_of(start));
                }
                Self::apply_policy_chunks(
                    policies,
                    index + 1,
                    full_buffer,
                    data_len,
                    n_copies as usize,
                );
                proof {
                    let inner: Seq<u8> = stack_applied(policies@, index + 1, policy.data_of(start));
                    assert(policy.data_of(full_buffer@) =~= inner);
                    assert(policy.data_of(inner + policy.overhead_of(start)) =~= inner);
                    lemma_applied_reads_data(
                        policy,
                        full_buffer@,
                        inner + policy.overhead_of(start),
                    );
                }
            },
            _ => {
                proof {
                    lemma_applied_len(policies@, index + 1, policy.data_of(start));
                }
                Self::apply_policy_helper(policies, index + 1, policy.get_data_mut(full_buffer));
                proof {
                    let inner: Seq<u8> = stack_applied(policies@, index + 1, policy.data_of(start));
                    assert(policy.data_of(full_buffer@) =~= inner);
                }
            },
        }
        proof {
            lemma_applied_keeps_data(policy, full_buffer@);
        }
        policy.apply_policy(full_buffer);
    }

    /// Derives the overhead of every layer from `index` inward in each of
    /// the `count` chunks of `size` bytes that make up `buffer`.
    fn apply_policy_chunks(
        policies: &[Policy; MAX_POLICIES],
        index: usize,
        buffer: &mut [u8],
        size: usize,
        count: usize,
    )
        requires
            index <= MAX_POLICIES,
            old(buffer)@.len() == size * count,
            stack_admits(policies@, index as int, Pass::Apply, size as int),
        ensures
            final(buffer)@ == each_applied(
                policies@,
                index as int,
                old(buffer)@,
                size as int,
                count as int,
            ),
            count > 0 && stack_admits(policies@, index as int, Pass::Correct, size as int)
                ==> !stack_corrupted(
                policies@,
                index as int,
                final(buffer)@.subrange(0, size as int),
            ),
        decreases MAX_POLICIES - index, 1 + count,
    {
        let ghost whole: Seq<u8> = buffer@;
        let ghost goal: Seq<u8> = final(buffer)@;
        let ghost mut done: Seq<u8> = Seq::empty();
        let mut rest: &mut [u8] = buffer;
        let mut chunk: usize = 0;
        while chunk < count
            invariant
                chunk <= count,
                index <= MAX_POLICIES,
                stack_admits(policies@, index as int, Pass::Apply, size as int),
                rest@.len() == size * (count - chunk),
                goal == done + final(rest)@,
                done.len() == size * chunk,
                done + each_applied(
                    policies@,
                    index as int,
                    rest@,
                    size as int,
                    (count - chunk) as int,
                ) == each_applied(policies@, index as int, whole, size as int, count as int),
                chunk > 0 && stack_admits(policies@, index as int, Pass::Correct, size as int)
                    ==> !stack_corrupted(policies@, index as int, done.subrange(0, size as int)),
            decreases count - chunk,
        {
            proof {
                assert(size * (count - chunk) == size * (count - chunk - 1) + size && size * (
                chunk + 1) == size * chunk + size && 0 <= size * chunk && (chunk > 0 ==> size
                    <= size * chunk)) by (nonlinear_arith)
                    requires
                        chunk < count,
                ;
            }
            let (head, tail) = rest.split_at_mut(size);
            proof {
                lemma_applied_len(policies@, index as int, head@);
            }
            Self::apply_policy_helper(policies, index, head);
            proof {
                let grown: Seq<u8> = done + head@;
                assert(done + (head@ + final(tail)@) =~= grown + final(tail)@);
                assert(done + (head@ + each_applied(
                    policies@,
                    index as int,
                    tail@,
                    size as int,
                    count - chunk - 1,
                )) =~= grown + each_applied(
                    policies@,
                    index as int,
                    tail@,
                    size as int,
                    count - chunk - 1,
                ));
                if chunk == 0 {
                    assert(grown.subrange(0, size as int) =~= head@);
                } else {
                    assert(grown.subrange(0, size as int) =~= done.subrange(0, size as int));
                }
                done = grown;
            }
            rest = tail;
            chunk += 1;
        }
        proof {
            assert(rest@.len() == 0) by (nonlinear_arith)
                requires
                    rest@.len() == size * (count - chunk),
                    chunk == count,
            ;
            assert(final(rest)@ =~= Seq::<u8>::empty());
            assert(goal =~= done);
            assert(each_applied(policies@, index as int, rest@, size as int, 0) =~= Seq::<
                u8,
            >::empty());
            if count > 0 {
                assert(size * count >= size) by (nonlinear_arith)
                    requires
                        count > 0,
                ;
            }
        }
    }

    /// Repairs `full_buffer` with every layer from `index` inward, innermost
    /// first, and adds up the errors that the layers repaired. This costs
    /// more than the probe: under redundancy every copy is walked.
    pub fn correct_bits_helper(
        policies: &[Policy; MAX_POLICIES],
        index: usize,
        full_buffer: &mut [u8],
    ) -> (answer: Result<u32, CorrectError>)
        requires
            index <= MAX_POLICIES,
            stack_admits(policies@, index as int, Pass::Correct, old(full_buffer)@.len() as int),
            stack_max_errors(policies@, index as int, old(full_buffer)@.len() as int)
                <= u32::MAX,
        ensures
            final(full_buffer)@ == stack_repaired(
                policies@,
                index as int,
                old(full_buffer)@,
            ).buffer,
            answer == stack_repaired(policies@, index as int, old(full_buffer)@).answer(),
            answer is Ok ==> stack_repaired(policies@, index as int, old(full_buffer)@).errors
                <= stack_max_errors(policies@, index as int, old(full_buffer)@.len() as int),
            only_copies(policies@, index as int) ==> answer is Ok,
        decreases MAX_POLICIES - index, 0int,
    {
        if index == MAX_POLICIES {
            return Ok(0);
        }
        let ghost start: Seq<u8> = full_buffer@;
        proof {
            if only_copies(policies@, index as int) {
                lemma_copies_repair_completes(policies@, index as int, start);
            }
        }
        let len: usize = full_buffer.len();
        let policy: Policy = policies[index];
        proof {
            lemma_max_errors_nonnegative(policies@, index as int, Pass::Correct, len as int);
        }
        let inner: Result<u32, CorrectError> = match policy {
            Policy::Nil => {
                return Ok(0);
            },
            Policy::Redundancy(n_copies) => {
                let data_len: usize = len / (n_copies as usize);
                proof {
                    lemma_fundamental_div_mod(len as int, n_copies as int);
                    assert(data_len * n_copies == n_copies * data_len) by (nonlinear_arith);
                    lemma_each_repaired_len(
                        policies@,
                        index + 1,
                        start,
                        data_len as int,
                        n_copies as int,
                    );
                }
                Self::correct_bits_chunks(
                    policies,
                    index + 1,
                    full_buffer,
                    data_len,
                    n_copies as usize,
                )
            },
            _ => {
                proof {
                    lemma_repaired_len(policies@, index + 1, policy.data_of(start));
                }
                Self::correct_bits_helper(policies, index + 1, policy.get_data_mut(full_buffer))
            },
        };
        let own: Result<u32, CorrectError> = policy.correct_buffer(full_buffer);
        match (inner, own) {
            (Ok(inside), Ok(here)) => Ok(inside + here),
            _ => Err(CorrectError::TooManyErrors),
        }
    }

    /// Repairs, with every layer from `index` inward, each of the `count`
    /// chunks of `size` bytes that make up `buffer`, and adds up the errors.
    fn correct_bits_chunks(
        policies: &[Policy; MAX_POLICIES],
        index: usize,
        buffer: &mut [u8],
        size: usize,
        count: usize,
    ) -> (answer: Result<u32, CorrectError>)
        requires
            index <= MAX_POLICIES,
            old(buffer)@.len() == size * count,
            stack_admits(policies@, index as int, Pass::Correct, size as int),
            count * stack_max_errors(policies@, index as int, size as int) <= u32::MAX,
        ensures
            final(buffer)@ == each_repaired(
                policies@,
                index as int,
                old(buffer)@,
                size as int,
                count as int,
            ).buffer,
            answer == each_repaired(
                policies@,
                index as int,
                old(buffer)@,
                size as int,
                count as int,
            ).answer(),
            answer is Ok ==> each_repaired(
                policies@,
                index as int,
                old(buffer)@,
                size as int,
                count as int,
            ).errors <= count * stack_max_errors(policies@, index as int, size as int),
        decreases MAX_POLICIES - index, 1 + count,
    {
        let ghost whole: Seq<u8> = buffer@;
        let ghost goal: Seq<u8> = final(buffer)@;
        let ghost mut done: Repaired = Repaired {
            buffer: Seq::empty(),
            errors: 0,
            complete: true,
        };
        proof {
            lemma_max_errors_nonnegative(policies@, index as int, Pass::Correct, size as int);
            let each: int = stack_max_errors(policies@, index as int, size as int);
            assert(0 * each == 0 && size * 0 == 0) by (nonlinear_arith);
        }
        let mut total: u32 = 0;
        let mut complete: bool = true;
        let mut rest: &mut [u8] = buffer;
        let mut chunk: usize = 0;
        while chunk < count
            invariant
                chunk <= count,
                index <= MAX_POLICIES,
                stack_admits(policies@, index as int, Pass::Correct, size as int),
                0 <= stack_max_errors(policies@, index as int, size as int),
                count * stack_max_errors(policies@, index as int, size as int) <= u32::MAX,
                rest@.len() == size * (count - chunk),
                goal == done.buffer + final(rest)@,
                done.buffer.len() == size * chunk,
                done.complete == complete,
                complete ==> total == done.errors && total <= chunk * stack_max_errors(
                    policies@,
                    index as int,
                    size as int,
                ),
                joined(
                    done,
                    each_repaired(
                        policies@,
                        index as int,
                        rest@,
                        size as int,
                        (count - chunk) as int,
                    ),
                ) == each_repaired(policies@, index as int, whole, size as int, count as int),
            decreases count - chunk,
        {
            proof {
                let each: int = stack_max_errors(policies@, index as int, size as int);
                assert(size * (count - chunk) == size * (count - chunk - 1) + size && size * (
                chunk + 1) == size * chunk + size && 0 <= size * chunk && each <= count * each
                    && (chunk + 1) * each <= count * each && chunk * each + each == (chunk + 1)
                    * each) by (nonlinear_arith)
                    requires
                        chunk < count,
                        0 <= each,
                ;
            }
            let (head, tail) = rest.split_at_mut(size);
            let ghost piece: Repaired = stack_repaired(policies@, index as int, head@);
            let ghost others: Repaired = each_repaired(
                policies@,
                index as int,
                tail@,
                size as int,
                count - chunk - 1,
            );
            proof {
                lemma_repaired_len(policies@, index as int, head@);
            }
            match Self::correct_bits_helper(policies, index, head) {
                Ok(found) => {
                    if complete {
                        total += found;
                    }
                },
                Err(_) => {
                    complete = false;
                },
            }
            proof {
                let grown: Repaired = joined(done, piece);
                assert(done.buffer + (head@ + final(tail)@) =~= grown.buffer + final(tail)@);
                assert(done.buffer + (piece.buffer + others.buffer) =~= grown.buffer
                    + others.buffer);
                assert(joined(done, joined(piece, others)) == joined(grown, others));
                done = grown;
            }
            rest = tail;
            chunk += 1;
        }
        proof {
            assert(rest@.len() == 0) by (nonlinear_arith)
                requires
                    rest@.len() == size * (count - chunk),
                    chunk == count,
            ;
            assert(final(rest)@ =~= Seq::<u8>::empty());
            assert(goal =~= done.buffer);
            let last: Repaired = each_repaired(policies@, index as int, rest@, size as int, 0);
            assert(done.buffer + last.buffer =~= done.buffer);
        }
        if complete {
            Ok(total)
        } else {
            Err(CorrectError::TooManyErrors)
        }
    }

    /// The flag of the guard is the `writer` of the view; setting it changes
    /// nothing else about the block.
    pub proof fn lemma_flag_in_view(self, flag: bool)
        ensures
            self.writer_flag() == self@.writer,
            self.with_writer_flag(flag)@ == (BlockView { writer: flag, ..self@ }),
            self.with_writer_flag(flag).recorded_size() == self.recorded_size(),
            self.wf() ==> self.with_writer_flag(flag).wf(),
    {
    }

    /// Makes a block for `size` bytes of payload under `policies`. The buffer
    /// of a `zeroed` block holds a payload of zeros with the overhead of
    /// every layer derived from it; of the buffer of any other block only the
    /// size is settled, and its overhead means nothing until the payload has
    /// been written and the policies applied.
    pub fn new(size: usize, policies: &[Policy; MAX_POLICIES], zeroed: bool) -> (block: AllocBlock)
        requires
            layout_valid(policies@, size as int),
            zeroed ==> stack_admits(
                policies@,
                0,
                Pass::Apply,
                stack_size(policies@, 0, size as int),
            ),
        ensures
            block.wf(),
            block@.policies == policies@,
            block@.length == size,
            !block@.writer,
            zeroed ==> block@.buffer == stack_applied(policies@, 0, zeros(block@.buffer.len())),
            zeroed && stack_admits(policies@, 0, Pass::Correct, block@.buffer.len() as int)
                ==> !stack_corrupted(policies@, 0, block@.buffer),
    {
        let buffer_size: usize = Self::size_of(size, policies).unwrap();
        let storage: Vec<u8> = vec![0u8; buffer_size];
        assert(storage@ =~= zeros(buffer_size as nat));
        let mut block = AllocBlock {
            policies: *policies,
            buffer_size: buffer_size,
            length: size,
            weak_exists: false,
            storage: storage,
        };
        if zeroed {
            block.apply_policy();
        }
        block
    }

    /// Resizes the block behind `w` to `new_size` bytes of payload under
    /// `new_policies`. The stored bytes are kept as far as the new buffer
    /// reaches, and the overhead of every layer is derived anew from them.
    pub fn renew<'a>(
        w: WeakMut<'a, AllocBlock>,
        new_size: usize,
        new_policies: &[Policy; MAX_POLICIES],
    ) -> (renewed: WeakMut<'a, AllocBlock>)
        requires
            w.slot() matches Some(held) && held.wf(),
            layout_valid(new_policies@, new_size as int),
            stack_admits(
                new_policies@,
                0,
                Pass::Apply,
                stack_size(new_policies@, 0, new_size as int),
            ),
        ensures
            renewed.slot() matches Some(block) && block.wf() && block@ == (BlockView {
                policies: new_policies@,
                length: new_size as nat,
                buffer: stack_applied(
                    new_policies@,
                    0,
                    resized(
                        w.slot().unwrap()@.buffer,
                        stack_size(new_policies@, 0, new_size as int) as nat,
                    ),
                ),
                writer: true,
            }) && *final(block) == *final(w.slot().unwrap()),
    {
        proof {
            (*w.slot().unwrap()).lemma_flag_in_view(false);
        }
        let new_block: &'a mut AllocBlock = w.get_ref_mut().unwrap();
        let new_buffer_size: usize = Self::size_of(new_size, new_policies).unwrap();
        let ghost kept: Seq<u8> = new_block.storage@;
        new_block.storage.resize(new_buffer_size, 0);
        assert(new_block.storage@ =~= resized(kept, new_buffer_size as nat));
        new_block.buffer_size = new_buffer_size;
        new_block.length = new_size;
        new_block.policies = *new_policies;
        new_block.weak_exists = false;
        new_block.apply_policy();
        proof {
            (*new_block).lemma_flag_in_view(true);
        }
        WeakMut::from(new_block)
    }

    /// Releases the block behind `w` and returns the extent that it gives
    /// back.
    pub fn drop<'a>(w: WeakMut<'a, AllocBlock>) -> (released: usize)
        requires
            w.slot() matches Some(held) && held.wf(),
        ensures
            released == block_extent(w.slot().unwrap()@.buffer.len() as int),
            final(w.slot().unwrap())@ == (BlockView {
                policies: seq![Policy::Nil, Policy::Nil, Policy::Nil],
                length: 0,
                buffer: Seq::empty(),
                writer: false,
            }),
    {
        proof {
            (*w.slot().unwrap()).lemma_flag_in_view(false);
        }
        w.get_ref_mut().unwrap().drop_ref()
    }

    /// Releases the storage of the block. The extent that is given back is
    /// derived from the payload length and the policy stack, as it was when
    /// the block was made; it is returned. The block is left with no
    /// policies and no bytes.
    pub fn drop_ref(&mut self) -> (released: usize)
        requires
            old(self).wf(),
        ensures
            released == block_extent(old(self)@.buffer.len() as int),
            final(self)@ == (BlockView {
                policies: seq![Policy::Nil, Policy::Nil, Policy::Nil],
                length: 0,
                buffer: Seq::empty(),
                writer: old(self)@.writer,
            }),
    {
        let buffer_size: usize = Self::size_of(self.length, &self.policies).unwrap();
        let extent: usize = Self::extent_of(buffer_size).unwrap();
        self.storage = Vec::new();
        self.buffer_size = 0;
        self.length = 0;
        self.policies = [Policy::Nil, Policy::Nil, Policy::Nil];
        assert(self.policies@ =~= seq![Policy::Nil, Policy::Nil, Policy::Nil]);
        extent
    }

    /// The length of the payload that the caller asked for.
    pub fn length(&self) -> (length: usize)
        ensures
            length == self@.length,
    {
        self.length
    }

    /// The policy stack of the block, outermost layer first.
    pub fn policies(&self) -> (policies: &[Policy; MAX_POLICIES])
        ensures
            policies@ == self@.policies,
    {
        &self.policies
    }

    /// The whole protected buffer: the payload and all overhead.
    pub fn buffer(&self) -> (bytes: &[u8])
        ensures
            bytes@ == self@.buffer,
    {
        self.storage.as_slice()
    }

    /// The whole protected buffer, to be written. The block stays well
    /// formed when the buffer keeps its length, as a slice does.
    pub fn buffer_mut(&mut self) -> (bytes: &mut [u8])
        ensures
            bytes@ == old(self)@.buffer,
            final(self)@ == (BlockView { buffer: final(bytes)@, ..old(self)@ }),
            final(self).recorded_size() == old(self).recorded_size(),
            old(self).wf() && final(bytes)@.len() == bytes@.len() ==> final(self).wf(),
    {
        self.storage.as_mut_slice()
    }

    /// The whole protected buffer of the block behind `w`, to be written.
    /// The view is used up.
    pub fn data_slice_ffi<'a>(w: WeakMut<'a, AllocBlock>) -> (bytes: &'a mut [u8])
        requires
            w.slot() is Some,
        ensures
            bytes@ == w.slot().unwrap()@.buffer,
            final(w.slot().unwrap())@ == (BlockView {
                buffer: final(bytes)@,
                writer: false,
                ..w.slot().unwrap()@
            }),
            final(w.slot().unwrap()).recorded_size() == w.slot().unwrap().recorded_size(),
            w.slot().unwrap().wf() && final(bytes)@.len() == bytes@.len()
                ==> final(w.slot().unwrap()).wf(),
    {
        proof {
            (*w.slot().unwrap()).lemma_flag_in_view(false);
        }
        w.get_ref_mut().unwrap().buffer_mut()
    }

    /// The bytes that the caller asked for: the first `length` bytes of the
    /// buffer. They can be relied on only after a repair.
    pub fn data_slice(&self) -> (bytes: &[u8])
        requires
            self@.length <= self@.buffer.len(),
        ensures
            bytes@ == self@.buffer.subrange(0, self@.length as int),
    {
        let (data, _) = self.storage.as_slice().split_at(self.length);
        data
    }

    /// Repairs the buffer of the block behind `w`. The view is used up.
    pub fn correct_buffer_ffi<'a>(w: WeakMut<'a, AllocBlock>) -> (answer: Result<
        u32,
        CorrectError,
    >)
        requires
            w.slot() matches Some(held) && held.wf() && held.can(Pass::Correct),
        ensures
            answer == stack_repaired(
                w.slot().unwrap()@.policies,
                0,
                w.slot().unwrap()@.buffer,
            ).answer(),
            only_copies(w.slot().unwrap()@.policies, 0) ==> answer is Ok,
            final(w.slot().unwrap()).wf(),
            final(w.slot().unwrap())@ == (BlockView {
                buffer: stack_repaired(
                    w.slot().unwrap()@.policies,
                    0,
                    w.slot().unwrap()@.buffer,
                ).buffer,
                writer: false,
                ..w.slot().unwrap()@
            }),
    {
        proof {
            (*w.slot().unwrap()).lemma_flag_in_view(false);
        }
        w.get_ref_mut().unwrap().correct_buffer()
    }

    /// Whether `pass` can walk the block's policy stack over its buffer. A
    /// repair moreover counts at most four errors per byte and layer, and
    /// the count has to fit a `u32`.
    pub open spec fn can(&self, pass: Pass) -> bool {
        stack_walkable(self@.policies, pass, self@.buffer.len() as int)
    }

    /// Whether `pass` can walk the block's policy stack over its buffer.
    pub fn permits(&self, pass: Pass) -> (ok: bool)
        requires
            self.wf(),
        ensures
            ok == self.can(pass),
    {
        Self::can_walk(&self.policies, pass, self.storage.len())
    }

    /// Whether `pass` can walk `policies` over a buffer of `len` bytes.
    pub fn can_walk(policies: &[Policy; MAX_POLICIES], pass: Pass, len: usize) -> (ok: bool)
        ensures
            ok == stack_walkable(policies@, pass, len as int),
    {
        if !Self::admits_from(policies, 0, pass, len) {
            return false;
        }
        match pass {
            Pass::Correct => Self::error_capacity(policies, 0, len).is_some(),
            _ => true,
        }
    }

    /// Whether every layer from `index` inward admits `pass` on the buffer
    /// that it is handed, the outermost being handed `len` bytes.
    pub fn admits_from(
        policies: &[Policy; MAX_POLICIES],
        index: usize,
        pass: Pass,
        len: usize,
    ) -> (ok: bool)
        requires
            index <= MAX_POLICIES,
        ensures
            ok == stack_admits(policies@, index as int, pass, len as int),
        decreases MAX_POLICIES - index,
    {
        if index == MAX_POLICIES {
            return true;
        }
        let policy: Policy = policies[index];
        if matches!(policy, Policy::Nil) {
            return true;
        }
        policy.permits(pass, len) && Self::admits_from(
            policies,
            index + 1,
            pass,
            policy.data_length(len),
        )
    }

    /// The most errors that a repair of `len` bytes by the layers from
    /// `index` inward can count, or nothing when that does not fit a `u32`.
    pub fn error_capacity(policies: &[Policy; MAX_POLICIES], index: usize, len: usize) -> (capacity:
        Option<u32>)
        requires
            index <= MAX_POLICIES,
            stack_admits(policies@, index as int, Pass::Correct, len as int),
        ensures
            match capacity {
                Some(most) => most == stack_max_errors(policies@, index as int, len as int),
                None => stack_max_errors(policies@, index as int, len as int) > u32::MAX,
            },
        decreases MAX_POLICIES - index,
    {
        if index == MAX_POLICIES {
            return Some(0);
        }
        let policy: Policy = policies[index];
        proof {
            lemma_max_errors_nonnegative(policies@, index as int, Pass::Correct, len as int);
        }
        let total: u128 = match policy {
            Policy::Nil => {
                return Some(0);
            },
            Policy::Redundancy(n_copies) => {
                let data_len: usize = len / (n_copies as usize);
                let inside: u32 = match Self::error_capacity(policies, index + 1, data_len) {
                    Some(inside) => inside,
                    None => {
                        proof {
                            let most: int = stack_max_errors(
                                policies@,
                                index + 1,
                                data_len as int,
                            );
                            assert(most <= n_copies * most) by (nonlinear_arith)
                                requires
                                    n_copies >= 1,
                                    most >= 0,
                            ;
                        }
                        return None;
                    },
                };
                let own: u128 = 8 * ((n_copies / 2) as u128) * (data_len as u128);
                assert((n_copies as u128) * (inside as u128) <= 0x1_0000_0000 * 0x1_0000_0000)
                    by (nonlinear_arith)
                    requires
                        n_copies <= 0xffff_ffff,
                        inside <= 0xffff_ffff,
                ;
                own + (n_copies as u128) * (inside as u128)
            },
            Policy::ReedSolomon(n_ecc) => {
                let inside: u32 = match Self::error_capacity(
                    policies,
                    index + 1,
                    len - (n_ecc as usize),
                ) {
                    Some(inside) => inside,
                    None => {
                        return None;
                    },
                };
                ((n_ecc / 2) as u128) + (inside as u128)
            },
        };
        if total <= u32::MAX as u128 {
            Some(total as u32)
        } else {
            None
        }
    }

    /// Repairs the buffer with every layer of the stack, innermost first,
    /// and returns the number of errors that were repaired. This should run
    /// before the payload is read.
    pub fn correct_buffer(&mut self) -> (answer: Result<u32, CorrectError>)
        requires
            old(self).wf(),
            old(self).can(Pass::Correct),
        ensures
            answer == stack_repaired(old(self)@.policies, 0, old(self)@.buffer).answer(),
            only_copies(old(self)@.policies, 0) ==> answer is Ok,
            final(self).wf(),
            final(self)@ == (BlockView {
                buffer: stack_repaired(old(self)@.policies, 0, old(self)@.buffer).buffer,
                ..old(self)@
            }),
    {
        proof {
            lemma_repaired_len(self.policies@, 0, self.storage@);
        }
        Self::correct_bits_helper(&self.policies, 0, self.storage.as_mut_slice())
    }

    /// Whether the fast probe finds corruption in the buffer. This is
    /// cheaper than a repair, and to be preferred where it is enough.
    pub fn is_corrupted(&self) -> (corrupt: bool)
        requires
            self.can(Pass::Probe),
        ensures
            corrupt == stack_corrupted(self@.policies, 0, self@.buffer),
    {
        Self::is_corrupted_helper(&self.policies, 0, self.storage.as_slice())
    }

    /// Derives the overhead of every layer from the payload, which is taken
    /// to be correct. This has to follow every write to the payload.
    pub fn apply_policy(&mut self)
        requires
            old(self).wf(),
            old(self).can(Pass::Apply),
        ensures
            final(self).wf(),
            final(self)@ == (BlockView {
                buffer: stack_applied(old(self)@.policies, 0, old(self)@.buffer),
                ..old(self)@
            }),
            stack_admits(old(self)@.policies, 0, Pass::Correct, old(self)@.buffer.len() as int)
                ==> !stack_corrupted(final(self)@.policies, 0, final(self)@.buffer),
    {
        proof {
            lemma_applied_len(self.policies@, 0, self.storage@);
        }
        Self::apply_policy_helper(&self.policies, 0, self.storage.as_mut_slice());
    }

    /// Derives the overhead of every layer of the block behind `w`. The view
    /// is used up.
    pub fn apply_policy_ffi<'a>(w: WeakMut<'a, AllocBlock>)
        requires
            w.slot() matches Some(held) && held.wf() && held.can(Pass::Apply),
        ensures
            final(w.slot().unwrap()).wf(),
            final(w.slot().unwrap())@ == (BlockView {
                buffer: stack_applied(
                    w.slot().unwrap()@.policies,
                    0,
                    w.slot().unwrap()@.buffer,
                ),
                writer: false,
                ..w.slot().unwrap()@
            }),
            stack_admits(
                w.slot().unwrap()@.policies,
                0,
                Pass::Correct,
                w.slot().unwrap()@.buffer.len() as int,
            ) ==> !stack_corrupted(
                w.slot().unwrap()@.policies,
                0,
                final(w.slot().unwrap())@.buffer,
            ),
    {
        proof {
            (*w.slot().unwrap()).lemma_flag_in_view(false);
        }
        w.get_ref_mut().unwrap().apply_policy();
    }
}

} // verus!
