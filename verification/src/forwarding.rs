//! What the runtime library is asked for on behalf of each request, and what
//! becomes of what it returned; and what requests do to device memory on a
//! runtime that keeps it.

use crate::driver::{Called, Returned, Wanted};
use crate::gpu;
use crate::host;
use crate::host::{Answer, DeviceState};
use crate::proto::Call;
use crate::text;
use vstd::prelude::*;

verus! {

/// The result `value` of a function that succeeded, its status where it failed,
/// and 999 where the library lacks it.
pub open spec fn outcome<T>(returned: Option<Returned>, value: T) -> Result<T, i32> {
    match returned {
        Some(r) => if r.status == 0 {
            Ok(value)
        } else {
            Err(r.status)
        },
        None => Err(999),
    }
}

/// Whether one more function was called between `before` and `after`, which was
/// `wanted`.
pub open spec fn one_call(before: DeviceState, wanted: Wanted, after: DeviceState) -> bool {
    &&& after.called.len() == before.called.len() + 1
    &&& after.called.drop_last() == before.called
    &&& after.called.last().wanted == wanted
}

/// What the function that was called last returned.
pub open spec fn got(after: DeviceState) -> Option<Returned> {
    after.called.last().returned
}

/// Initializing calls `hipInit` with no flags, and synchronizing
/// `hipDeviceSynchronize`; both have no result but their status.
pub proof fn law_init_and_synchronize(
    before: DeviceState,
    call: Call,
    answer: Answer,
    after: DeviceState,
)
    requires
        call is Init || call is DeviceSynchronize,
        gpu::forwards(before, call, answer, after),
    ensures
        one_call(
            before,
            if call is Init {
                Wanted::Init { flags: 0 }
            } else {
                Wanted::DeviceSynchronize
            },
            after,
        ),
        answer == Answer::Done(outcome(got(after), ())),
        after.allocations == before.allocations,
{
    assert(after.called.drop_last() =~= before.called);
}

/// The device count is the one that the runtime tells.
pub proof fn law_count_is_that_of_the_runtime(
    before: DeviceState,
    answer: Answer,
    after: DeviceState,
)
    requires
        gpu::forwards(before, Call::DeviceGetCount, answer, after),
    ensures
        one_call(before, Wanted::GetDeviceCount, after),
        answer == Answer::Count(outcome(got(after), got(after)->Some_0.count)),
        after.allocations == before.allocations,
{
    assert(after.called.drop_last() =~= before.called);
}

/// A query for the memory of a device asks the runtime about that device, and
/// the answer is the number that the runtime returned for it.
pub proof fn law_memory_is_that_of_the_device(
    before: DeviceState,
    device: i32,
    answer: Answer,
    after: DeviceState,
)
    requires
        gpu::forwards(before, Call::DeviceTotalMem { device }, answer, after),
    ensures
        one_call(before, Wanted::DeviceTotalMem { device }, after),
        answer == Answer::Word(outcome(got(after), got(after)->Some_0.word)),
        after.allocations == before.allocations,
{
    assert(after.called.drop_last() =~= before.called);
}

/// The first `n` bytes before a NUL are those of the C string.
proof fn lemma_c_string(buffer: Seq<u8>, n: int)
    requires
        0 <= n <= buffer.len(),
        forall|i: int| 0 <= i < n ==> #[trigger] buffer[i] != 0,
        n < buffer.len() ==> buffer[n] == 0,
    ensures
        gpu::c_string(buffer) == buffer.take(n),
    decreases n,
{
    if n > 0 {
        let rest = buffer.skip(1);
        assert forall|i: int| 0 <= i < n - 1 implies #[trigger] rest[i] != 0 by {
            assert(rest[i] == buffer[i + 1]);
        }
        lemma_c_string(rest, n - 1);
        assert(buffer.take(n) =~= seq![buffer[0]] + rest.take(n - 1));
    } else {
        assert(buffer.take(0) =~= Seq::<u8>::empty());
    }
}

/// A query for the name of a device asks the runtime about that device, with a
/// buffer of 256 bytes, and the answer is the text in it before the first NUL.
pub proof fn law_name_is_that_of_the_device(
    before: DeviceState,
    device: i32,
    answer: Answer,
    after: DeviceState,
    n: int,
)
    requires
        gpu::forwards(before, Call::DeviceGetName { device }, answer, after),
    ensures
        one_call(before, Wanted::DeviceGetName { capacity: 256, device }, after),
        answer is Name,
        answer.error() == Answer::Done(outcome(got(after), ())).error(),
        ({
            let buffer = got(after)->Some_0.buffer@;
            let text = buffer.take(n);
            answer.error() is None && 0 <= n <= buffer.len() && (forall|i: int|
                0 <= i < n ==> #[trigger] buffer[i] != 0) && (n < buffer.len() ==> buffer[n] == 0)
                ==> answer == Answer::Name(
                Ok(
                    if vstd::utf8::valid_utf8(text) {
                        vstd::utf8::decode_utf8(text)
                    } else {
                        text::repaired(text)
                    },
                ),
            )
        }),
        after.allocations == before.allocations,
{
    assert(after.called.drop_last() =~= before.called);
    let buffer = got(after)->Some_0.buffer@;
    if 0 <= n <= buffer.len() && (forall|i: int| 0 <= i < n ==> #[trigger] buffer[i] != 0) && (n
        < buffer.len() ==> buffer[n] == 0) {
        lemma_c_string(buffer, n);
    }
}

/// An allocation asks the runtime for exactly the size of the request; the
/// answer is the address that the runtime returned, which is then live with that
/// size.
pub proof fn law_allocation_is_of_the_size_asked_for(
    before: DeviceState,
    size: u64,
    answer: Answer,
    after: DeviceState,
)
    requires
        gpu::forwards(before, Call::MemAlloc { size }, answer, after),
    ensures
        one_call(before, Wanted::Malloc { size }, after),
        answer == Answer::Word(outcome(got(after), got(after)->Some_0.word)),
        match answer {
            Answer::Word(Ok(dptr)) => after.allocations == before.allocations.insert(dptr, size),
            _ => after.allocations == before.allocations,
        },
{
    assert(after.called.drop_last() =~= before.called);
}

/// Freeing asks the runtime to free exactly the address of the request, which is
/// then no longer live, also where the runtime reports an error; where the
/// library lacks the function nothing changes.
pub proof fn law_exactly_the_address_is_freed(
    before: DeviceState,
    dptr: u64,
    answer: Answer,
    after: DeviceState,
)
    requires
        gpu::forwards(before, Call::MemFree { dptr }, answer, after),
    ensures
        one_call(before, Wanted::Free { dptr }, after),
        answer == Answer::Done(outcome(got(after), ())),
        after.allocations == if got(after) is None {
            before.allocations
        } else {
            before.allocations.remove(dptr)
        },
{
    assert(after.called.drop_last() =~= before.called);
}

/// A copy asks the runtime for exactly the bytes of the request, at exactly its
/// addresses, in its direction: to the device (1), from it (2), or within it
/// (3). A copy from the device is answered with what the runtime put into the
/// buffer.
pub proof fn law_copies_are_those_of_the_request(
    before: DeviceState,
    call: Call,
    answer: Answer,
    after: DeviceState,
)
    requires
        gpu::forwards(before, call, answer, after),
    ensures
        match call {
            Call::MemcpyHtoD { dptr, data } => {
                &&& one_call(before, Wanted::CopyIn { dptr, data, kind: 1 }, after)
                &&& answer == Answer::Done(outcome(got(after), ()))
                &&& after.allocations == before.allocations
            },
            Call::MemcpyDtoH { dptr, size } => {
                &&& one_call(before, Wanted::CopyOut { dptr, size, kind: 2 }, after)
                &&& answer == Answer::Data(outcome(got(after), got(after)->Some_0.buffer@))
                &&& after.allocations == before.allocations
            },
            Call::MemcpyDtoD { dst, src, size } => {
                &&& one_call(before, Wanted::CopyWithin { dst, src, size, kind: 3 }, after)
                &&& answer == Answer::Done(outcome(got(after), ()))
                &&& after.allocations == before.allocations
            },
            _ => true,
        },
{
    assert(after.called.drop_last() =~= before.called);
}

/// Whether `done`, called after the calls of `log`, turns the device memory
/// `before` into `after` as a runtime that keeps device memory does: a copy that
/// succeeds moves its bytes, and what a call does not concern stays.
pub open spec fn acts_on_memory(
    log: Seq<Called>,
    before: spec_fn(int) -> u8,
    done: Called,
    after: spec_fn(int) -> u8,
) -> bool {
    &&& forall|address: int|
        !gpu::disturbs(log, done, address) ==> #[trigger] after(address) == before(address)
    &&& done.returned matches Some(r) ==> r.status == 0 ==> match done.wanted {
        Wanted::CopyIn { dptr, data, kind } => kind == 1 ==> forall|i: int|
            0 <= i < data.len() ==> after(dptr + i) == #[trigger] data[i],
        Wanted::CopyOut { dptr, size, kind } => kind == 2 ==> r.buffer@.len() == size && forall|
            i: int,
        |
            0 <= i < size ==> #[trigger] r.buffer@[i] == before(dptr + i),
        Wanted::CopyWithin { dst, src, size, kind } => kind == 3 ==> forall|address: int|
            dst <= address < dst + size ==> #[trigger] after(address) == before(
                src + (address - dst),
            ),
        _ => true,
    }
}

/// `state` with `memory` for its device memory.
pub open spec fn holding(state: DeviceState, memory: spec_fn(int) -> u8) -> DeviceState {
    DeviceState { memory, ..state }
}

/// On a runtime that keeps device memory, requests do to it what they say: a
/// copy to the device leaves all its data there, a copy from it takes all that
/// is there, a copy within it moves all its bytes, and nothing else changes.
pub proof fn law_requests_do_what_they_say(
    before: DeviceState,
    memory_before: spec_fn(int) -> u8,
    call: Call,
    answer: Answer,
    after: DeviceState,
    memory_after: spec_fn(int) -> u8,
)
    requires
        before.allocations == gpu::live(before.called),
        gpu::forwards(before, call, answer, after),
        acts_on_memory(before.called, memory_before, after.called.last(), memory_after),
    ensures
        host::keeps_bytes(
            holding(before, memory_before),
            call,
            answer,
            holding(after, memory_after),
        ),
{
    let from = holding(before, memory_before);
    let to = holding(after, memory_after);
    let done = after.called.last();
    assert forall|address: int| !host::touches(from, call, answer, address) implies #[trigger] (
    to.memory)(address) == (from.memory)(address) by {
        assert(!gpu::disturbs(before.called, done, address));
    }
    match call {
        Call::MemcpyHtoD { dptr, data } => {
            if answer is Done && answer->Done_0 is Ok {
                let here = host::bytes_at(to, dptr as int, data.len());
                assert forall|i: int| 0 <= i < data.len() implies here[i] == #[trigger] data[i] by {
                    assert(memory_after(dptr + i) == data[i]);
                }
                assert(here =~= data);
            }
        },
        Call::MemcpyDtoD { dst, src, size } => {
            if answer is Done && answer->Done_0 is Ok {
                let here = host::bytes_at(to, dst as int, size as nat);
                let there = host::bytes_at(from, src as int, size as nat);
                assert forall|i: int| 0 <= i < size implies #[trigger] here[i] == there[i] by {
                    assert(memory_after(dst + i) == memory_before(src + (dst + i - dst)));
                }
                assert(here =~= there);
            }
        },
        Call::MemcpyDtoH { dptr, size } => {
            if answer is Data && answer->Data_0 is Ok {
                let data = answer->Data_0->Ok_0;
                let there = host::bytes_at(from, dptr as int, size as nat);
                assert forall|i: int| 0 <= i < size implies #[trigger] data[i] == there[i] by {}
                assert(data =~= there);
            }
        },
        _ => {},
    }
}

} // verus!
