//! The operations that the foreign surface offers, on values that safe code
//! can hold.
//!
//! A foreign caller describes the policies of an allocation as a linked list
//! of nodes and names a block by a pointer. Here the list is the sequence of
//! its nodes, each with the copy count that its data pointer leads to, and a
//! block is named by a reference; turning pointers into these is left to the
//! boundary itself.

use vstd::prelude::*;
use crate::block::{layout_valid, resized, zeros, AllocBlock, BlockView};
use crate::policies::{copy_from, CorrectError, Pass, Policy, MAX_POLICIES};
use crate::stack::{stack_admits, stack_applied, stack_corrupted, stack_repaired, stack_size};
use crate::weak::WeakMut;

verus! {

/// The kind of policy that a node of a foreign list names.
#[derive(Copy, Clone, Debug, PartialEq, Eq, Structural)]
pub enum ErPolicyRaw {
    Nil,
    Redundancy,
}

/// What can be wrong with a foreign policy list.
#[derive(Copy, Clone, Debug, PartialEq, Eq, Structural)]
pub enum FfiError {
    PolicyValueUnknown,
    PolicyDataWasNull,
    MoreThanMaxPolicies,
}

impl FfiError {
    /// The name of the error.
    pub fn to_string(&self) -> (name: String)
        ensures
            name@ == match self {
                FfiError::PolicyValueUnknown => "PolicyValueUnknown"@,
                FfiError::PolicyDataWasNull => "PolicyDataWasNull"@,
                FfiError::MoreThanMaxPolicies => "MoreThanMaxPolicies"@,
            },
    {
        match self {
            FfiError::PolicyValueUnknown => "PolicyValueUnknown".to_owned(),
            FfiError::PolicyDataWasNull => "PolicyDataWasNull".to_owned(),
            FfiError::MoreThanMaxPolicies => "MoreThanMaxPolicies".to_owned(),
        }
    }
}

/// A node of a foreign policy list as it is handed over: the kind of policy
/// and the copy count found behind the node's data pointer, if that pointer
/// is not null.
#[derive(Copy, Clone, Debug, PartialEq, Eq, Structural)]
pub struct ErPolicyListRaw {
    pub policy: ErPolicyRaw,
    pub policy_data: Option<u32>,
}

/// A node that has been checked: a redundancy node has its copy count.
#[derive(Copy, Clone, Debug, PartialEq, Eq, Structural)]
pub struct ErPolicyListNonNull {
    pub policy: ErPolicyRaw,
    pub policy_data: Option<u32>,
}

impl ErPolicyListRaw {
    pub fn new(policy: ErPolicyRaw, policy_data: Option<u32>) -> (node: Self)
        ensures
            node == (ErPolicyListRaw { policy: policy, policy_data: policy_data }),
    {
        ErPolicyListRaw { policy, policy_data }
    }

    /// Whether the node lacks the data that its kind needs.
    pub open spec fn lacks_data(self) -> bool {
        self.policy == ErPolicyRaw::Redundancy && self.policy_data is None
    }

    /// The policy that the node describes.
    pub open spec fn described(self) -> Policy {
        match (self.policy, self.policy_data) {
            (ErPolicyRaw::Redundancy, Some(copies)) => Policy::Redundancy(copies),
            _ => Policy::Nil,
        }
    }
}

impl Default for ErPolicyListRaw {
    fn default() -> (node: Self)
        ensures
            node == (ErPolicyListRaw { policy: ErPolicyRaw::Nil, policy_data: None }),
    {
        ErPolicyListRaw::new(ErPolicyRaw::Nil, None)
    }
}

impl ErPolicyListNonNull {
    pub fn new(policy: ErPolicyRaw, policy_data: Option<u32>) -> (node: Self)
        ensures
            node == (ErPolicyListNonNull { policy: policy, policy_data: policy_data }),
    {
        ErPolicyListNonNull { policy, policy_data }
    }

    /// A redundancy node has its copy count.
    pub open spec fn wf(self) -> bool {
        self.policy == ErPolicyRaw::Redundancy ==> self.policy_data is Some
    }

    /// Checks a node: a redundancy node without data is refused; the data of
    /// a `Nil` node is dropped.
    pub fn try_from(raw: ErPolicyListRaw) -> (checked: Result<Self, FfiError>)
        ensures
            match checked {
                Ok(node) => !raw.lacks_data() && node.wf() && node.policy == raw.policy
                    && node.policy_data == match raw.policy {
                    ErPolicyRaw::Nil => None,
                    ErPolicyRaw::Redundancy => raw.policy_data,
                },
                Err(error) => raw.lacks_data() && error == FfiError::PolicyDataWasNull,
            },
    {
        match raw.policy {
            ErPolicyRaw::Nil => Ok(ErPolicyListNonNull::new(raw.policy, None)),
            ErPolicyRaw::Redundancy => {
                if raw.policy_data.is_none() {
                    Err(FfiError::PolicyDataWasNull)
                } else {
                    Ok(ErPolicyListNonNull::new(raw.policy, raw.policy_data))
                }
            },
        }
    }
}

impl Default for ErPolicyListNonNull {
    fn default() -> (node: Self)
        ensures
            node == (ErPolicyListNonNull { policy: ErPolicyRaw::Nil, policy_data: None }),
    {
        ErPolicyListNonNull::new(ErPolicyRaw::Nil, None)
    }
}

impl Policy {
    /// The policy that a checked node describes.
    pub fn from(raw: ErPolicyListNonNull) -> (policy: Policy)
        requires
            raw.wf(),
        ensures
            policy == match raw.policy {
                ErPolicyRaw::Nil => Policy::Nil,
                ErPolicyRaw::Redundancy => Policy::Redundancy(raw.policy_data.unwrap()),
            },
    {
        match raw.policy {
            ErPolicyRaw::Nil => Policy::Nil,
            ErPolicyRaw::Redundancy => Policy::Redundancy(raw.policy_data.unwrap()),
        }
    }
}

/// The stack that a list of nodes describes: the nodes' policies in order,
/// and `Nil` in the slots that the list does not reach.
pub open spec fn described_stack(nodes: Seq<ErPolicyListRaw>) -> Seq<Policy> {
    Seq::new(
        MAX_POLICIES as nat,
        |i: int|
            if i < nodes.len() {
                nodes[i].described()
            } else {
                Policy::Nil
            },
    )
}

/// What is wrong with a list, if anything: a node among those that fit the
/// stack lacks its data, or else the list is longer than the stack.
pub open spec fn list_fault(nodes: Seq<ErPolicyListRaw>) -> Option<FfiError> {
    if exists|i: int|
        0 <= i < nodes.len() && i < MAX_POLICIES && (#[trigger] nodes[i]).lacks_data() {
        Some(FfiError::PolicyDataWasNull)
    } else if nodes.len() > MAX_POLICIES {
        Some(FfiError::MoreThanMaxPolicies)
    } else {
        None
    }
}

/// Decodes a foreign policy list for an allocation of `size` bytes. A size of
/// zero asks for no allocation, whatever the list holds. A list that reaches
/// past the stack is refused, not cut.
pub fn setup_policy_helper(size: usize, policies: &[ErPolicyListRaw]) -> (stack: Result<
    Option<[Policy; MAX_POLICIES]>,
    FfiError,
>)
    ensures
        match stack {
            Ok(None) => size == 0,
            Ok(Some(policy_arr)) => size != 0 && list_fault(policies@) is None && policy_arr@
                == described_stack(policies@),
            Err(error) => size != 0 && list_fault(policies@) == Some(error),
        },
{
    if size == 0 {
        return Ok(None);
    }
    let mut policy_arr: [Policy; MAX_POLICIES] = [Policy::Nil, Policy::Nil, Policy::Nil];
    let count: usize = policies.len();
    let mut i: usize = 0;
    while i < count
        invariant
            size != 0,
            i <= count == policies@.len(),
            i <= MAX_POLICIES,
            forall|k: int| 0 <= k < i ==> !(#[trigger] policies@[k]).lacks_data(),
            forall|k: int|
                0 <= k < MAX_POLICIES ==> #[trigger] policy_arr@[k] == if k < i {
                    policies@[k].described()
                } else {
                    Policy::Nil
                },
        decreases count - i,
    {
        if i >= MAX_POLICIES {
            return Err(FfiError::MoreThanMaxPolicies);
        }
        match ErPolicyListNonNull::try_from(policies[i]) {
            Ok(head) => {
                policy_arr[i] = Policy::from(head);
            },
            Err(error) => {
                assert(policies@[i as int].lacks_data());
                return Err(error);
            },
        }
        i += 1;
    }
    assert(policy_arr@ =~= described_stack(policies@));
    Ok(Some(policy_arr))
}

/// A block after its release: no policies and no bytes.
pub open spec fn released() -> BlockView {
    BlockView {
        policies: seq![Policy::Nil, Policy::Nil, Policy::Nil],
        length: 0,
        buffer: Seq::empty(),
        writer: false,
    }
}

/// The status that the foreign caller is given for the answer of a repair:
/// the count of repaired errors as a signed integer of the same bits, and -1
/// for a failed repair. A negative status stands for failure.
pub open spec fn status_of(answer: Result<u32, CorrectError>) -> int {
    match answer {
        Ok(count) => if count <= i32::MAX {
            count as int
        } else {
            count - 0x1_0000_0000
        },
        Err(_) => -1,
    }
}

/// Allocates a block for `size` bytes under the policies of the list. A size
/// of zero allocates nothing. The buffer is not initialised: its overhead
/// means nothing until the payload is written and the policies are set up.
pub fn er_malloc(size: usize, policies: &[ErPolicyListRaw]) -> (block: Result<
    Option<AllocBlock>,
    FfiError,
>)
    requires
        size != 0 && list_fault(policies@) is None ==> layout_valid(
            described_stack(policies@),
            size as int,
        ),
    ensures
        match block {
            Ok(None) => size == 0,
            Ok(Some(made)) => size != 0 && list_fault(policies@) is None && made.wf()
                && made@.policies == described_stack(policies@) && made@.length == size
                && !made@.writer,
            Err(error) => size != 0 && list_fault(policies@) == Some(error),
        },
{
    match setup_policy_helper(size, policies) {
        Ok(Some(policy_arr)) => Ok(Some(AllocBlock::new(size, &policy_arr, false))),
        Ok(None) => Ok(None),
        Err(error) => Err(error),
    }
}

/// Releases a block.
pub fn er_free(block: &mut AllocBlock)
    requires
        old(block).wf(),
        !old(block)@.writer,
    ensures
        final(block)@ == released(),
{
    proof {
        (*block).lemma_flag_in_view(true);
    }
    AllocBlock::drop(WeakMut::from(block));
}

/// Allocates a block for `nmemb` members of `size` bytes each under the
/// policies of the list, with a payload of zeros and the overhead of every
/// layer derived from it. A member size of zero allocates nothing.
pub fn er_calloc(nmemb: usize, size: usize, policies: &[ErPolicyListRaw]) -> (block: Result<
    Option<AllocBlock>,
    FfiError,
>)
    requires
        nmemb * size <= usize::MAX,
        size != 0 && list_fault(policies@) is None ==> layout_valid(
            described_stack(policies@),
            nmemb * size,
        ) && stack_admits(
            described_stack(policies@),
            0,
            Pass::Apply,
            stack_size(described_stack(policies@), 0, nmemb * size),
        ),
    ensures
        match block {
            Ok(None) => size == 0,
            Ok(Some(made)) => size != 0 && list_fault(policies@) is None && made.wf()
                && made@.policies == described_stack(policies@) && made@.length == nmemb * size
                && !made@.writer && made@.buffer == stack_applied(
                described_stack(policies@),
                0,
                zeros(made@.buffer.len()),
            ),
            Err(error) => size != 0 && list_fault(policies@) == Some(error),
        },
{
    let bytes: usize = nmemb * size;
    match setup_policy_helper(size, policies) {
        Ok(Some(policy_arr)) => Ok(Some(AllocBlock::new(bytes, &policy_arr, true))),
        Ok(None) => Ok(None),
        Err(error) => Err(error),
    }
}

/// Resizes a block to `size` bytes under the policies of the list, in
/// place. A size of zero releases the block, as `er_free` does, and hands
/// back nothing. A list that is refused leaves the block as it is.
pub fn er_realloc<'a>(
    block: &'a mut AllocBlock,
    size: usize,
    policies: &[ErPolicyListRaw],
) -> (kept: Result<Option<&'a mut AllocBlock>, FfiError>)
    requires
        old(block).wf(),
        !old(block)@.writer,
        size != 0 && list_fault(policies@) is None ==> layout_valid(
            described_stack(policies@),
            size as int,
        ) && stack_admits(
            described_stack(policies@),
            0,
            Pass::Apply,
            stack_size(described_stack(policies@), 0, size as int),
        ),
    ensures
        match kept {
            Ok(None) => size == 0 && final(block)@ == released(),
            Ok(Some(renewed)) => size != 0 && list_fault(policies@) is None && renewed.wf()
                && renewed@ == (BlockView {
                policies: described_stack(policies@),
                length: size as nat,
                buffer: stack_applied(
                    described_stack(policies@),
                    0,
                    resized(
                        old(block)@.buffer,
                        stack_size(described_stack(policies@), 0, size as int) as nat,
                    ),
                ),
                writer: false,
            }) && *final(renewed) == *final(block),
            Err(error) => size != 0 && list_fault(policies@) == Some(error) && *final(block)
                == *old(block),
        },
{
    if size == 0 {
        er_free(block);
        return Ok(None);
    }
    match setup_policy_helper(size, policies) {
        Ok(Some(policy_arr)) => {
            proof {
                (*block).lemma_flag_in_view(true);
            }
            let renewed = AllocBlock::renew(WeakMut::from(block), size, &policy_arr);
            proof {
                (*renewed.slot().unwrap()).lemma_flag_in_view(false);
            }
            Ok(renewed.get_ref_mut())
        },
        Ok(None) => Ok(None),
        Err(error) => Err(error),
    }
}

/// Resizing to a number of members is not offered: nothing is done and
/// nothing is handed back.
pub fn er_reallocarray<'a>(
    block: &'a mut AllocBlock,
    nmemb: usize,
    size: usize,
    policies: &[ErPolicyListRaw],
) -> (kept: Option<&'a mut AllocBlock>)
    ensures
        kept is None,
        *final(block) == *old(block),
{
    None
}

/// Derives the overhead of every layer of a block from its payload, for use
/// after the payload was written.
pub fn er_setup_policies(block: &mut AllocBlock)
    requires
        old(block).wf(),
        !old(block)@.writer,
        old(block).can(Pass::Apply),
    ensures
        final(block).wf(),
        final(block)@ == (BlockView {
            buffer: stack_applied(old(block)@.policies, 0, old(block)@.buffer),
            ..old(block)@
        }),
        stack_admits(old(block)@.policies, 0, Pass::Correct, old(block)@.buffer.len() as int)
            ==> !stack_corrupted(final(block)@.policies, 0, final(block)@.buffer),
{
    proof {
        (*block).lemma_flag_in_view(true);
    }
    AllocBlock::apply_policy_ffi(WeakMut::from(block));
}

/// Repairs the buffer of a block and hands back the status of the repair.
pub fn er_correct_buffer(block: &mut AllocBlock) -> (status: i32)
    requires
        old(block).wf(),
        !old(block)@.writer,
        old(block).can(Pass::Correct),
    ensures
        status == status_of(
            stack_repaired(old(block)@.policies, 0, old(block)@.buffer).answer(),
        ),
        final(block).wf(),
        final(block)@ == (BlockView {
            buffer: stack_repaired(old(block)@.policies, 0, old(block)@.buffer).buffer,
            ..old(block)@
        }),
{
    proof {
        (*block).lemma_flag_in_view(true);
    }
    match AllocBlock::correct_buffer_ffi(WeakMut::from(block)) {
        Ok(count) => {
            if count <= 0x7fff_ffff {
                count as i32
            } else {
                ((count - 0x8000_0000) as i32) + i32::MIN
            }
        },
        Err(_) => -1,
    }
}

/// Repairs the buffer of a block, then copies `len` bytes of it, from
/// `offset` on, into `dest`. After a failed repair nothing is copied. The
/// status is that of the repair.
pub fn er_read_buf(block: &mut AllocBlock, dest: &mut [u8], offset: usize, len: usize) -> (status:
    i32)
    requires
        old(block).wf(),
        !old(block)@.writer,
        old(block).can(Pass::Correct),
        offset + len <= old(block)@.buffer.len(),
        old(dest)@.len() == len,
    ensures
        status == status_of(
            stack_repaired(old(block)@.policies, 0, old(block)@.buffer).answer(),
        ),
        final(block).wf(),
        final(block)@ == (BlockView {
            buffer: stack_repaired(old(block)@.policies, 0, old(block)@.buffer).buffer,
            ..old(block)@
        }),
        final(dest)@ == if status < 0 {
            old(dest)@
        } else {
            final(block)@.buffer.subrange(offset as int, offset + len)
        },
{
    let c: i32 = er_correct_buffer(block);
    if c < 0 {
        return c;
    }
    proof {
        (*block).lemma_flag_in_view(true);
    }
    let src_buf: &mut [u8] = AllocBlock::data_slice_ffi(WeakMut::from(block));
    copy_from(dest, src_buf, offset);
    c
}

/// Copies the `len` bytes of `src` into the buffer of a block, from `offset`
/// on. The overhead is not derived anew: that is left to `er_setup_policies`.
pub fn er_write_buf(block: &mut AllocBlock, src: &[u8], offset: usize, len: usize) -> (status: i32)
    requires
        old(block).wf(),
        !old(block)@.writer,
        offset + len <= old(block)@.buffer.len(),
        src@.len() == len,
    ensures
        status == 0,
        final(block).wf(),
        final(block)@ == (BlockView {
            buffer: old(block)@.buffer.subrange(0, offset as int) + src@ + old(
                block,
            )@.buffer.subrange(offset + len, old(block)@.buffer.len() as int),
            ..old(block)@
        }),
{
    proof {
        (*block).lemma_flag_in_view(true);
    }
    let ghost before: Seq<u8> = block@.buffer;
    let whole: &mut [u8] = AllocBlock::data_slice_ffi(WeakMut::from(block));
    let (_, from_offset) = whole.split_at_mut(offset);
    let (dst_buf, _) = from_offset.split_at_mut(len);
    copy_from(dst_buf, src, 0);
    proof {
        assert(src@.subrange(0, len as int) =~= src@);
        assert(block@.buffer =~= before.subrange(0, offset as int) + src@ + before.subrange(
            offset + len,
            before.len() as int,
        ));
    }
    0
}

} // verus!
