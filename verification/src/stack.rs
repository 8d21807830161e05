//! The policy stack as a mathematical object.
//!
//! A stack is a sequence of policies. Slot 0 is the outermost layer and
//! protects the whole stored buffer; the data region of each layer is the
//! whole buffer of the next one. The first `Nil` slot, or the end of the
//! sequence, ends the stack: what follows it plays no part.

use vstd::prelude::*;
use vstd::arithmetic::div_mod::{lemma_fundamental_div_mod, lemma_small_mod};
use crate::policies::{
    lemma_agreeing_copies, lemma_copy_fits, lemma_quotient_below, lemma_replica_is_clean, Pass,
    Policy, Repaired,
};
use crate::vote::{copy_len, lemma_slot};

verus! {

/// Whether slot `index` holds a layer of the stack.
pub open spec fn active(policies: Seq<Policy>, index: int) -> bool {
    0 <= index < policies.len() && policies[index] != Policy::Nil
}

/// The size of the buffer in which the layers from `index` inward protect
/// `payload` bytes: the innermost layer wraps the payload, and each layer
/// outward wraps what the one inside it made.
pub open spec fn stack_size(policies: Seq<Policy>, index: int, payload: int) -> int
    decreases policies.len() - index,
{
    if active(policies, index) {
        policies[index].total_size(stack_size(policies, index + 1, payload))
    } else {
        payload
    }
}

/// Whether every size met while the layers from `index` inward wrap
/// `payload` bytes fits a `usize`.
pub open spec fn stack_size_fits(policies: Seq<Policy>, index: int, payload: int) -> bool
    decreases policies.len() - index,
{
    if active(policies, index) {
        stack_size_fits(policies, index + 1, payload) && stack_size(policies, index, payload)
            <= usize::MAX
    } else {
        true
    }
}

/// Inside the stack, the sizes that fit at some layer fit at every layer
/// further in.
pub proof fn lemma_size_fits_inward(policies: Seq<Policy>, index: int, payload: int, deeper: int)
    requires
        0 <= index <= deeper,
        forall|i: int| index <= i < deeper ==> active(policies, i),
        stack_size_fits(policies, index, payload),
    ensures
        stack_size_fits(policies, deeper, payload),
    decreases deeper - index,
{
    if index < deeper {
        lemma_size_fits_inward(policies, index + 1, payload, deeper);
    }
}

/// Whether `pass` can walk the layers from `index` inward over a buffer of
/// `len` bytes: each layer admits it on the buffer that it is handed.
pub open spec fn stack_admits(policies: Seq<Policy>, index: int, pass: Pass, len: int) -> bool
    decreases policies.len() - index,
{
    if active(policies, index) {
        policies[index].admits(pass, len) && stack_admits(
            policies,
            index + 1,
            pass,
            policies[index].data_len(len),
        )
    } else {
        true
    }
}

/// The most errors that a repair of a buffer of `len` bytes by the layers
/// from `index` inward can count: what the layer at `index` can count, and
/// what the layers inside it can count in its data region, or in each of its
/// copies.
pub open spec fn stack_max_errors(policies: Seq<Policy>, index: int, len: int) -> int
    decreases policies.len() - index,
{
    if active(policies, index) {
        let policy = policies[index];
        let inside = stack_max_errors(policies, index + 1, policy.data_len(len));
        policy.max_errors(len) + match policy {
            Policy::Redundancy(copies) => copies * inside,
            _ => inside,
        }
    } else {
        0
    }
}

/// Whether `pass` can walk the whole stack over a buffer of `len` bytes. A
/// repair moreover has to be able to count what it repairs in a `u32`.
pub open spec fn stack_walkable(policies: Seq<Policy>, pass: Pass, len: int) -> bool {
    &&& stack_admits(policies, 0, pass, len)
    &&& pass == Pass::Correct ==> stack_max_errors(policies, 0, len) <= u32::MAX
}

/// What a repair can count is never negative, layer by layer.
pub proof fn lemma_max_errors_nonnegative(policies: Seq<Policy>, index: int, pass: Pass, len: int)
    requires
        0 <= len,
        stack_admits(policies, index, pass, len),
    ensures
        0 <= stack_max_errors(policies, index, len),
        active(policies, index) ==> 0 <= policies[index].max_errors(len) && 0
            <= stack_max_errors(policies, index + 1, policies[index].data_len(len)),
    decreases policies.len() - index,
{
    if active(policies, index) {
        let policy = policies[index];
        lemma_data_inside(policy, len);
        let size: int = policy.data_len(len);
        lemma_max_errors_nonnegative(policies, index + 1, pass, size);
        let inside: int = stack_max_errors(policies, index + 1, size);
        if let Policy::Redundancy(copies) = policy {
            let half: int = (copies as int) / 2;
            assert(0 <= 8 * half * size && 0 <= copies * inside) by (nonlinear_arith)
                requires
                    0 <= half,
                    0 <= size,
                    0 <= inside,
                    0 <= copies,
            ;
        }
    }
}

/// The answer of the fast probe: whether the layer at `index`, or any layer
/// inside its data region, reports corruption. Under redundancy only the
/// first copy is looked into.
pub open spec fn stack_corrupted(policies: Seq<Policy>, index: int, buffer: Seq<u8>) -> bool
    decreases policies.len() - index,
{
    if active(policies, index) {
        stack_corrupted(policies, index + 1, policies[index].data_of(buffer))
            || policies[index].corrupted(buffer)
    } else {
        false
    }
}

/// `buffer` after the layers from `index` inward have derived their
/// overhead, innermost first.
pub open spec fn stack_applied(policies: Seq<Policy>, index: int, buffer: Seq<u8>) -> Seq<u8>
    decreases policies.len() - index,
{
    if active(policies, index) {
        let policy = policies[index];
        policy.applied(
            stack_applied(policies, index + 1, policy.data_of(buffer)) + policy.overhead_of(
                buffer,
            ),
        )
    } else {
        buffer
    }
}

/// Two outcomes, one after the other: the buffers joined, the errors added.
pub open spec fn joined(first: Repaired, second: Repaired) -> Repaired {
    Repaired {
        buffer: first.buffer + second.buffer,
        errors: first.errors + second.errors,
        complete: first.complete && second.complete,
    }
}

/// The outcome of a layer's own repair on what the layers inside it left.
pub open spec fn followed(inner: Repaired, policy: Policy) -> Repaired {
    let own = policy.repaired(inner.buffer);
    Repaired {
        buffer: own.buffer,
        errors: inner.errors + own.errors,
        complete: inner.complete && own.complete,
    }
}

/// The outcome of repairing `buffer` with the layers from `index` inward,
/// innermost first. A redundancy layer has every one of its copies repaired
/// by the layers inside it before it votes; any other layer has its data
/// region repaired. A codeword that cannot be decoded is left as it is and
/// makes the outcome incomplete; the walk goes on all the same.
pub open spec fn stack_repaired(policies: Seq<Policy>, index: int, buffer: Seq<u8>) -> Repaired
    decreases policies.len() - index, 0int,
{
    if active(policies, index) {
        let policy = policies[index];
        let inner = match policy {
            Policy::Redundancy(copies) => each_repaired(
                policies,
                index + 1,
                buffer,
                copy_len(buffer, copies as int),
                copies as int,
            ),
            _ => joined(
                stack_repaired(policies, index + 1, policy.data_of(buffer)),
                Repaired { buffer: policy.overhead_of(buffer), errors: 0, complete: true },
            ),
        };
        followed(inner, policy)
    } else {
        Repaired { buffer: buffer, errors: 0, complete: true }
    }
}

/// The outcome of repairing, with the layers from `index` inward, each of
/// the first `count` chunks of `size` bytes of `buffer` on its own.
pub open spec fn each_repaired(
    policies: Seq<Policy>,
    index: int,
    buffer: Seq<u8>,
    size: int,
    count: int,
) -> Repaired
    decreases policies.len() - index, 1 + count,
{
    if count <= 0 {
        Repaired { buffer: Seq::empty(), errors: 0, complete: true }
    } else {
        joined(
            stack_repaired(policies, index, buffer.subrange(0, size)),
            each_repaired(
                policies,
                index,
                buffer.subrange(size, buffer.len() as int),
                size,
                count - 1,
            ),
        )
    }
}

/// `buffer` after the layers from `index` inward have derived their
/// overhead in each of its first `count` chunks of `size` bytes.
pub open spec fn each_applied(
    policies: Seq<Policy>,
    index: int,
    buffer: Seq<u8>,
    size: int,
    count: int,
) -> Seq<u8>
    decreases count,
{
    if count <= 0 {
        Seq::empty()
    } else {
        stack_applied(policies, index, buffer.subrange(0, size)) + each_applied(
            policies,
            index,
            buffer.subrange(size, buffer.len() as int),
            size,
            count - 1,
        )
    }
}

/// What a layer derives depends on the data region alone, not on the
/// overhead that it replaces.
pub proof fn lemma_applied_reads_data(policy: Policy, first: Seq<u8>, second: Seq<u8>)
    requires
        policy != Policy::Nil,
        first.len() == second.len(),
        policy.splits(first.len() as int),
        policy.data_of(first) == policy.data_of(second),
    ensures
        policy.applied(first) == policy.applied(second),
{
    let len: int = first.len() as int;
    match policy {
        Policy::Redundancy(copies) => {
            let size: int = copy_len(first, copies as int);
            assert forall|j: int| 0 <= j < len implies #[trigger] policy.applied(first)[j]
                == policy.applied(second)[j] by {
                lemma_quotient_below(len, copies as int, j);
                assert(first[j % size] == policy.data_of(first)[j % size]);
                assert(second[j % size] == policy.data_of(second)[j % size]);
            }
            assert(policy.applied(first) =~= policy.applied(second));
        },
        Policy::ReedSolomon(parity) => {
            let size: int = len - parity;
            assert forall|j: int| 0 <= j < len implies #[trigger] policy.applied(first)[j]
                == policy.applied(second)[j] by {
                if j < size {
                    assert(first[j] == policy.data_of(first)[j]);
                    assert(second[j] == policy.data_of(second)[j]);
                }
            }
            assert(policy.applied(first) =~= policy.applied(second));
        },
        Policy::Nil => {},
    }
}

/// A layer leaves the data region as it finds it.
pub proof fn lemma_applied_keeps_data(policy: Policy, buffer: Seq<u8>)
    requires
        policy.splits(buffer.len() as int),
    ensures
        policy.applied(buffer).len() == buffer.len(),
        policy.data_of(policy.applied(buffer)) == policy.data_of(buffer),
{
    let len: int = buffer.len() as int;
    let made: Seq<u8> = policy.applied(buffer);
    match policy {
        Policy::Redundancy(copies) => {
            lemma_copy_fits(len, copies as int);
            let size: int = copy_len(buffer, copies as int);
            assert forall|j: int| 0 <= j < size implies #[trigger] made[j] == buffer[j] by {
                lemma_small_mod(j as nat, size as nat);
            }
            assert(policy.data_of(made) =~= policy.data_of(buffer));
        },
        Policy::ReedSolomon(parity) => {
            assert(policy.data_of(made) =~= policy.data_of(buffer));
        },
        Policy::Nil => {},
    }
}

/// The layers of a stack that a pass can walk have the data region inside
/// the buffer.
pub proof fn lemma_data_inside(policy: Policy, len: int)
    requires
        0 <= len,
        policy.splits(len),
    ensures
        0 <= policy.data_len(len) <= len,
{
    if let Policy::Redundancy(copies) = policy {
        lemma_copy_fits(len, copies as int);
    }
}

/// Deriving overhead never changes the length of a buffer.
pub proof fn lemma_applied_len(policies: Seq<Policy>, index: int, buffer: Seq<u8>)
    requires
        0 <= index,
        stack_admits(policies, index, Pass::Apply, buffer.len() as int),
    ensures
        stack_applied(policies, index, buffer).len() == buffer.len(),
    decreases policies.len() - index,
{
    if active(policies, index) {
        let policy = policies[index];
        lemma_data_inside(policy, buffer.len() as int);
        lemma_applied_len(policies, index + 1, policy.data_of(buffer));
    }
}

/// Deriving overhead chunk by chunk gives as many bytes as the chunks hold.
pub proof fn lemma_each_applied_len(
    policies: Seq<Policy>,
    index: int,
    buffer: Seq<u8>,
    size: int,
    count: int,
)
    requires
        0 <= index,
        0 <= size,
        0 <= count,
        buffer.len() == size * count,
        stack_admits(policies, index, Pass::Apply, size),
    ensures
        each_applied(policies, index, buffer, size, count).len() == buffer.len(),
    decreases count,
{
    if count > 0 {
        assert(size * count == size * (count - 1) + size) by (nonlinear_arith);
        lemma_applied_len(policies, index, buffer.subrange(0, size));
        lemma_each_applied_len(
            policies,
            index,
            buffer.subrange(size, buffer.len() as int),
            size,
            count - 1,
        );
    } else {
        assert(size * count == 0) by (nonlinear_arith)
            requires
                count == 0,
        ;
    }
}

/// A repair never changes the length of a buffer, whether it is walked as a
/// whole or chunk by chunk.
pub proof fn lemma_repaired_len(policies: Seq<Policy>, index: int, buffer: Seq<u8>)
    requires
        0 <= index,
        stack_admits(policies, index, Pass::Correct, buffer.len() as int),
    ensures
        stack_repaired(policies, index, buffer).buffer.len() == buffer.len(),
    decreases policies.len() - index, 0int,
{
    if active(policies, index) {
        let policy = policies[index];
        let len: int = buffer.len() as int;
        lemma_data_inside(policy, len);
        match policy {
            Policy::Redundancy(copies) => {
                lemma_fundamental_div_mod(len, copies as int);
                lemma_each_repaired_len(
                    policies,
                    index + 1,
                    buffer,
                    copy_len(buffer, copies as int),
                    copies as int,
                );
            },
            _ => {
                lemma_repaired_len(policies, index + 1, policy.data_of(buffer));
            },
        }
    }
}

pub proof fn lemma_each_repaired_len(
    policies: Seq<Policy>,
    index: int,
    buffer: Seq<u8>,
    size: int,
    count: int,
)
    requires
        0 <= index,
        0 <= size,
        0 <= count,
        buffer.len() == size * count,
        stack_admits(policies, index, Pass::Correct, size),
    ensures
        each_repaired(policies, index, buffer, size, count).buffer.len() == buffer.len(),
    decreases policies.len() - index, 1 + count,
{
    if count > 0 {
        assert(size * count == size * (count - 1) + size) by (nonlinear_arith);
        lemma_repaired_len(policies, index, buffer.subrange(0, size));
        lemma_each_repaired_len(
            policies,
            index,
            buffer.subrange(size, buffer.len() as int),
            size,
            count - 1,
        );
    } else {
        assert(size * count == 0) by (nonlinear_arith)
            requires
                count == 0,
        ;
    }
}

/// Whether `larger` is the kind of layer that `smaller` is, with as many
/// copies or parity bytes, or more.
pub open spec fn no_smaller(smaller: Policy, larger: Policy) -> bool {
    match (smaller, larger) {
        (Policy::Nil, Policy::Nil) => true,
        (Policy::Redundancy(few), Policy::Redundancy(many)) => few <= many,
        (Policy::ReedSolomon(few), Policy::ReedSolomon(many)) => few <= many,
        _ => false,
    }
}

/// For one payload length, the buffer never gets smaller when layers get
/// more copies or more parity bytes.
pub proof fn lemma_size_monotonic(
    smaller: Seq<Policy>,
    larger: Seq<Policy>,
    index: int,
    payload: int,
)
    requires
        smaller.len() == larger.len(),
        0 <= index,
        0 <= payload,
        forall|i: int| index <= i < smaller.len() ==> no_smaller(smaller[i], larger[i]),
    ensures
        0 <= stack_size(smaller, index, payload) <= stack_size(larger, index, payload),
    decreases smaller.len() - index,
{
    if active(smaller, index) {
        lemma_size_monotonic(smaller, larger, index + 1, payload);
        let few: int = stack_size(smaller, index + 1, payload);
        let many: int = stack_size(larger, index + 1, payload);
        match (smaller[index], larger[index]) {
            (Policy::Redundancy(a), Policy::Redundancy(b)) => {
                assert(0 <= few * a <= many * b) by (nonlinear_arith)
                    requires
                        0 <= few <= many,
                        0 <= a <= b,
                ;
            },
            _ => {},
        }
    }
}

/// Deriving the overhead twice over gives what deriving it once gives.
pub proof fn lemma_apply_idempotent(policies: Seq<Policy>, index: int, buffer: Seq<u8>)
    requires
        0 <= index,
        stack_admits(policies, index, Pass::Apply, buffer.len() as int),
    ensures
        stack_applied(policies, index, stack_applied(policies, index, buffer)) == stack_applied(
            policies,
            index,
            buffer,
        ),
    decreases policies.len() - index,
{
    if active(policies, index) {
        let policy = policies[index];
        let len: int = buffer.len() as int;
        lemma_data_inside(policy, len);
        let inner: Seq<u8> = stack_applied(policies, index + 1, policy.data_of(buffer));
        lemma_applied_len(policies, index + 1, policy.data_of(buffer));
        lemma_apply_idempotent(policies, index + 1, policy.data_of(buffer));
        let wrapped: Seq<u8> = inner + policy.overhead_of(buffer);
        let once: Seq<u8> = policy.applied(wrapped);
        lemma_applied_keeps_data(policy, wrapped);
        assert(policy.data_of(wrapped) =~= inner);
        let again: Seq<u8> = inner + policy.overhead_of(once);
        assert(policy.data_of(again) =~= inner);
        lemma_applied_reads_data(policy, again, wrapped);
    }
}

/// What any pass can walk, the probe can walk.
pub proof fn lemma_probe_admitted(policies: Seq<Policy>, index: int, pass: Pass, len: int)
    requires
        stack_admits(policies, index, pass, len),
    ensures
        stack_admits(policies, index, Pass::Probe, len),
    decreases policies.len() - index,
{
    if active(policies, index) {
        lemma_probe_admitted(policies, index + 1, pass, policies[index].data_len(len));
    }
}

/// A buffer in which the probe finds no corruption is left as it is by a
/// repair, and no error is counted. A buffer is in that state after its
/// overhead was derived from its data, as the functions that derive it
/// state.
pub proof fn lemma_clean_repair(policies: Seq<Policy>, index: int, pass: Pass, buffer: Seq<u8>)
    requires
        0 <= index,
        stack_admits(policies, index, pass, buffer.len() as int),
        !stack_corrupted(policies, index, buffer),
    ensures
        stack_repaired(policies, index, buffer) == (Repaired {
            buffer: buffer,
            errors: 0,
            complete: true,
        }),
    decreases policies.len() - index, 0int,
{
    lemma_probe_admitted(policies, index, pass, buffer.len() as int);
    if active(policies, index) {
        let policy = policies[index];
        let len: int = buffer.len() as int;
        lemma_data_inside(policy, len);
        match policy {
            Policy::Redundancy(copies) => {
                let size: int = copy_len(buffer, copies as int);
                lemma_fundamental_div_mod(len, copies as int);
                assert forall|k: int| 0 <= k < copies implies !stack_corrupted(
                    policies,
                    index + 1,
                    #[trigger] chunk_of(buffer, size, k),
                ) by {
                    assert(size * (k + 1) <= size * copies && size * (k + 1) == size * k + size
                        && size * k == k * size && 0 <= size * k) by (nonlinear_arith)
                        requires
                            0 <= k < copies,
                            0 <= size,
                    ;
                    assert forall|i: int| 0 <= i < size implies chunk_of(buffer, size, k)[i]
                        == policy.data_of(buffer)[i] by {
                        lemma_slot(len, copies as int, k, i);
                        let j: int = k * size + i;
                        assert(buffer[j] == buffer[j % size]);
                    }
                    assert(chunk_of(buffer, size, k) =~= policy.data_of(buffer));
                }
                lemma_clean_chunks(policies, index + 1, buffer, size, copies as int);
                lemma_agreeing_copies(buffer, copies as int);
            },
            _ => {
                lemma_clean_repair(policies, index + 1, Pass::Probe, policy.data_of(buffer));
                assert(policy.data_of(buffer) + policy.overhead_of(buffer) =~= buffer);
                assert(policy.repaired(buffer).buffer =~= buffer);
            },
        }
    }
}

/// The `k`-th chunk of `size` bytes of `buffer`.
pub open spec fn chunk_of(buffer: Seq<u8>, size: int, k: int) -> Seq<u8> {
    buffer.subrange(size * k, size * k + size)
}

/// Chunks in none of which the probe finds corruption are left as they are
/// by a repair, and no error is counted.
pub proof fn lemma_clean_chunks(
    policies: Seq<Policy>,
    index: int,
    buffer: Seq<u8>,
    size: int,
    count: int,
)
    requires
        0 <= index,
        0 <= size,
        0 <= count,
        buffer.len() == size * count,
        stack_admits(policies, index, Pass::Probe, size),
        forall|k: int|
            0 <= k < count ==> !stack_corrupted(
                policies,
                index,
                #[trigger] chunk_of(buffer, size, k),
            ),
    ensures
        each_repaired(policies, index, buffer, size, count) == (Repaired {
            buffer: buffer,
            errors: 0,
            complete: true,
        }),
    decreases policies.len() - index, 1 + count,
{
    if count > 0 {
        assert(size * count == size * (count - 1) + size && size * 0 == 0) by (nonlinear_arith);
        let head: Seq<u8> = buffer.subrange(0, size);
        let tail: Seq<u8> = buffer.subrange(size, buffer.len() as int);
        assert(chunk_of(buffer, size, 0) =~= head);
        lemma_clean_repair(policies, index, Pass::Probe, head);
        assert forall|k: int| 0 <= k < count - 1 implies !stack_corrupted(
            policies,
            index,
            #[trigger] chunk_of(tail, size, k),
        ) by {
            assert(size * (k + 1) == size * k + size && 0 <= size * k && size * (k + 1) + size
                <= size * count) by (nonlinear_arith)
                requires
                    0 <= k < count - 1,
                    0 <= size,
            ;
            assert(chunk_of(tail, size, k) =~= chunk_of(buffer, size, k + 1));
        }
        lemma_clean_chunks(policies, index, tail, size, count - 1);
        assert(head + tail =~= buffer);
    } else {
        assert(size * count == 0) by (nonlinear_arith)
            requires
                count == 0,
        ;
        assert(buffer =~= Seq::<u8>::empty());
    }
}

/// Whether no layer from `index` inward is a Reed-Solomon layer.
pub open spec fn only_copies(policies: Seq<Policy>, index: int) -> bool {
    forall|i: int| index <= i < policies.len() ==> !(#[trigger] policies[i] is ReedSolomon)
}

/// Where every layer is a redundancy layer, a repair is always complete:
/// only a codeword can be beyond repair.
pub proof fn lemma_copies_repair_completes(policies: Seq<Policy>, index: int, buffer: Seq<u8>)
    requires
        0 <= index,
        only_copies(policies, index),
    ensures
        stack_repaired(policies, index, buffer).complete,
    decreases policies.len() - index, 0int,
{
    if active(policies, index) {
        let policy = policies[index];
        let copies = policy->Redundancy_0;
        lemma_copies_repair_each(
            policies,
            index + 1,
            buffer,
            copy_len(buffer, copies as int),
            copies as int,
        );
    }
}

proof fn lemma_copies_repair_each(
    policies: Seq<Policy>,
    index: int,
    buffer: Seq<u8>,
    size: int,
    count: int,
)
    requires
        0 <= index,
        only_copies(policies, index),
    ensures
        each_repaired(policies, index, buffer, size, count).complete,
    decreases policies.len() - index, 1 + count,
{
    if count > 0 {
        lemma_copies_repair_completes(policies, index, buffer.subrange(0, size));
        lemma_copies_repair_each(
            policies,
            index,
            buffer.subrange(size, buffer.len() as int),
            size,
            count - 1,
        );
    }
}

/// Where every layer is a redundancy layer, the probe finds no corruption in
/// a buffer whose overhead was just derived. (Of a Reed-Solomon layer the
/// same is known once its parity has been computed, and is stated by the
/// functions that compute it.)
pub proof fn lemma_applied_copies_are_clean(policies: Seq<Policy>, index: int, buffer: Seq<u8>)
    requires
        0 <= index,
        stack_admits(policies, index, Pass::Apply, buffer.len() as int),
        only_copies(policies, index),
    ensures
        !stack_corrupted(policies, index, stack_applied(policies, index, buffer)),
    decreases policies.len() - index,
{
    if active(policies, index) {
        let policy = policies[index];
        let copies = policy->Redundancy_0;
        let len: int = buffer.len() as int;
        lemma_data_inside(policy, len);
        let inner: Seq<u8> = stack_applied(policies, index + 1, policy.data_of(buffer));
        lemma_applied_len(policies, index + 1, policy.data_of(buffer));
        lemma_applied_copies_are_clean(policies, index + 1, policy.data_of(buffer));
        let wrapped: Seq<u8> = inner + policy.overhead_of(buffer);
        lemma_applied_keeps_data(policy, wrapped);
        assert(policy.data_of(wrapped) =~= inner);
        lemma_replica_is_clean(wrapped, copies as int);
    }
}

/// Where every layer is a redundancy layer, a repair right after the
/// overhead was derived changes nothing and counts no error.
pub proof fn lemma_copies_round_trip(policies: Seq<Policy>, index: int, buffer: Seq<u8>)
    requires
        0 <= index,
        stack_admits(policies, index, Pass::Apply, buffer.len() as int),
        only_copies(policies, index),
    ensures
        stack_repaired(policies, index, stack_applied(policies, index, buffer)) == (Repaired {
            buffer: stack_applied(policies, index, buffer),
            errors: 0,
            complete: true,
        }),
{
    lemma_applied_len(policies, index, buffer);
    lemma_applied_copies_are_clean(policies, index, buffer);
    lemma_clean_repair(policies, index, Pass::Apply, stack_applied(policies, index, buffer));
}

} // verus!
