//! Host-side HIP backend trait and dispatch.
//!
//! [`HipBackend`] is the seam between the wire protocol and whatever actually
//! owns the GPU; [`crate::gpu::RealHipBackend`] forwards to the runtime of the
//! host.

use crate::bytes;
use crate::bytes::{write_i32, write_u64};
use crate::driver::{Called, Returned, Wanted};
use crate::proto::{Call, Reply, Request, Response};
use vstd::prelude::*;
use vstd::slice::slice_to_vec;

verus! {

/// What a backend answers to a call: the result, or a `hipError_t`.
pub enum Answer {
    Done(Result<(), i32>),
    Count(Result<i32, i32>),
    Name(Result<Seq<char>, i32>),
    Word(Result<u64, i32>),
    Data(Result<Seq<u8>, i32>),
}

impl Answer {
    /// Whether the answer is of the kind that `call` asks for.
    pub open spec fn suits(self, call: Call) -> bool {
        match call {
            Call::DeviceGetCount => self is Count,
            Call::DeviceGetName { .. } => self is Name,
            Call::DeviceTotalMem { .. } | Call::MemAlloc { .. } => self is Word,
            Call::MemcpyDtoH { .. } => self is Data,
            _ => self is Done,
        }
    }

    /// The error that the answer reports, if it reports one.
    pub open spec fn error(self) -> Option<i32> {
        match self {
            Answer::Done(Err(e)) => Some(e),
            Answer::Count(Err(e)) => Some(e),
            Answer::Name(Err(e)) => Some(e),
            Answer::Word(Err(e)) => Some(e),
            Answer::Data(Err(e)) => Some(e),
            _ => None,
        }
    }

    /// The return data of the answer; empty where there is none.
    pub open spec fn data(self) -> Seq<u8> {
        match self {
            Answer::Count(Ok(n)) => bytes::le_bytes(bytes::i32_bits(n), 4),
            Answer::Name(Ok(name)) => vstd::utf8::encode_utf8(name),
            Answer::Word(Ok(w)) => bytes::le_bytes(w as nat, 8),
            Answer::Data(Ok(data)) => data,
            _ => Seq::empty(),
        }
    }

    /// The reply that carries the answer to the guest.
    pub open spec fn reply(self) -> Reply {
        match self.error() {
            Some(e) => Reply { status: e, data: Seq::empty() },
            None => Reply { status: 0, data: self.data() },
        }
    }
}

/// A device name as it enters an [`Answer`].
pub open spec fn named(name: Result<String, i32>) -> Result<Seq<char>, i32> {
    match name {
        Ok(s) => Ok(s@),
        Err(e) => Err(e),
    }
}

/// Copied device memory as it enters an [`Answer`].
pub open spec fn copied(data: Result<Vec<u8>, i32>) -> Result<Seq<u8>, i32> {
    match data {
        Ok(bytes) => Ok(bytes@),
        Err(e) => Err(e),
    }
}

/// What the contracts see of a backend's state.
pub struct DeviceState {
    /// The sizes of the live allocations by device address.
    pub allocations: Map<u64, u64>,
    /// The bytes of device memory by address, where the backend keeps them
    /// itself.
    pub memory: spec_fn(int) -> u8,
    /// What the functions of a runtime library may return, where the backend
    /// forwards to one.
    pub runtime: spec_fn(Wanted, Option<Returned>) -> bool,
    /// The functions of the runtime library that were called so far.
    pub called: Seq<Called>,
}

/// The state of a backend that does not tell its state.
pub open spec fn untold() -> DeviceState {
    DeviceState {
        allocations: Map::empty(),
        memory: |address: int| 0u8,
        runtime: |wanted: Wanted, returned: Option<Returned>| true,
        called: Seq::empty(),
    }
}

/// The `len` bytes of device memory from `at` on.
pub open spec fn bytes_at(state: DeviceState, at: int, len: nat) -> Seq<u8> {
    Seq::new(len, |i: int| (state.memory)(at + i))
}

/// Whether `call`, answered with `answer`, may change the byte at `address`.
pub open spec fn touches(before: DeviceState, call: Call, answer: Answer, address: int) -> bool {
    match call {
        Call::MemcpyHtoD { dptr, data } => dptr <= address < dptr + data.len(),
        Call::MemcpyDtoD { dst, size, .. } => dst <= address < dst + size,
        Call::MemAlloc { size } => answer matches Answer::Word(Ok(dptr)) && dptr <= address < dptr
            + size,
        Call::MemFree { dptr } => before.allocations.contains_key(dptr) && dptr <= address < dptr
            + before.allocations[dptr],
        _ => false,
    }
}

/// Whether device memory keeps its bytes when `call` is answered with `answer`:
/// a copy to the device leaves its data there, a copy from it takes what is
/// there, and nothing else changes.
pub open spec fn keeps_bytes(
    before: DeviceState,
    call: Call,
    answer: Answer,
    after: DeviceState,
) -> bool {
    &&& forall|address: int|
        !touches(before, call, answer, address) ==> #[trigger] (after.memory)(address) == (
        before.memory)(address)
    &&& match (call, answer) {
        (Call::MemcpyHtoD { dptr, data }, Answer::Done(Ok(_))) => bytes_at(
            after,
            dptr as int,
            data.len(),
        ) == data,
        (Call::MemcpyDtoD { dst, src, size }, Answer::Done(Ok(_))) => bytes_at(
            after,
            dst as int,
            size as nat,
        ) == bytes_at(before, src as int, size as nat),
        (Call::MemcpyDtoH { dptr, size }, Answer::Data(Ok(data))) => data == bytes_at(
            before,
            dptr as int,
            size as nat,
        ),
        _ => true,
    }
}

/// What a HIP backend must answer.
pub trait HipBackend {
    /// The state of the backend.
    open spec fn state(&self) -> DeviceState {
        untold()
    }

    /// Whether the backend in this state may answer `call` with `answer` and
    /// then be in the state `after`. It is each backend's own to say; one that
    /// does not say may answer anything.
    open spec fn answers(&self, call: Call, answer: Answer, after: DeviceState) -> bool {
        true
    }

    fn init(&mut self) -> (r: Result<(), i32>)
        ensures
            old(self).answers(Call::Init, Answer::Done(r), final(self).state()),
    ;

    fn device_get_count(&mut self) -> (r: Result<i32, i32>)
        ensures
            old(self).answers(Call::DeviceGetCount, Answer::Count(r), final(self).state()),
    ;

    fn device_get_name(&mut self, device: i32) -> (r: Result<String, i32>)
        ensures
            old(self).answers(
                Call::DeviceGetName { device },
                Answer::Name(named(r)),
                final(self).state(),
            ),
    ;

    fn device_total_mem(&mut self, device: i32) -> (r: Result<u64, i32>)
        ensures
            old(self).answers(
                Call::DeviceTotalMem { device },
                Answer::Word(r),
                final(self).state(),
            ),
    ;

    fn mem_alloc(&mut self, size: u64) -> (r: Result<u64, i32>)
        ensures
            old(self).answers(Call::MemAlloc { size }, Answer::Word(r), final(self).state()),
    ;

    fn mem_free(&mut self, dptr: u64) -> (r: Result<(), i32>)
        ensures
            old(self).answers(Call::MemFree { dptr }, Answer::Done(r), final(self).state()),
    ;

    fn memcpy_h2d(&mut self, dptr: u64, data: &[u8]) -> (r: Result<(), i32>)
        ensures
            old(self).answers(
                Call::MemcpyHtoD { dptr, data: data@ },
                Answer::Done(r),
                final(self).state(),
            ),
    ;

    fn memcpy_d2h(&mut self, dptr: u64, size: u64) -> (r: Result<Vec<u8>, i32>)
        ensures
            old(self).answers(
                Call::MemcpyDtoH { dptr, size },
                Answer::Data(copied(r)),
                final(self).state(),
            ),
    ;

    fn memcpy_d2d(&mut self, dst: u64, src: u64, size: u64) -> (r: Result<(), i32>)
        ensures
            old(self).answers(
                Call::MemcpyDtoD { dst, src, size },
                Answer::Done(r),
                final(self).state(),
            ),
    ;

    fn device_synchronize(&mut self) -> (r: Result<(), i32>)
        ensures
            old(self).answers(Call::DeviceSynchronize, Answer::Done(r), final(self).state()),
    ;
}

/// The response to a call that succeeded.
fn ok(data: Vec<u8>) -> (resp: Response)
    ensures
        resp@ == (Reply { status: 0, data: data@ }),
{
    Response { status: 0, data }
}

/// The response to a call that failed.
fn err(status: i32) -> (resp: Response)
    ensures
        resp@ == (Reply { status, data: Seq::empty() }),
{
    Response { status, data: Vec::new() }
}

/// The response that carries a result without data.
pub fn done_response(r: Result<(), i32>) -> (resp: Response)
    ensures
        resp@ == Answer::Done(r).reply(),
{
    match r {
        Ok(()) => ok(Vec::new()),
        Err(e) => err(e),
    }
}

/// The response that carries a device count.
pub fn count_response(r: Result<i32, i32>) -> (resp: Response)
    ensures
        resp@ == Answer::Count(r).reply(),
{
    match r {
        Ok(n) => {
            let mut data: Vec<u8> = Vec::new();
            write_i32(&mut data, n);
            assert(data@ =~= Answer::Count(r).data());
            ok(data)
        },
        Err(e) => err(e),
    }
}

/// The response that carries a device name.
pub fn name_response(r: Result<String, i32>) -> (resp: Response)
    ensures
        resp@ == Answer::Name(named(r)).reply(),
{
    match r {
        Ok(name) => ok(slice_to_vec(name.as_str().as_bytes())),
        Err(e) => err(e),
    }
}

/// The response that carries a size or a device address.
pub fn word_response(r: Result<u64, i32>) -> (resp: Response)
    ensures
        resp@ == Answer::Word(r).reply(),
{
    match r {
        Ok(w) => {
            let mut data: Vec<u8> = Vec::new();
            write_u64(&mut data, w);
            assert(data@ =~= Answer::Word(r).data());
            ok(data)
        },
        Err(e) => err(e),
    }
}

/// The response that carries copied device memory.
pub fn data_response(r: Result<Vec<u8>, i32>) -> (resp: Response)
    ensures
        resp@ == Answer::Data(copied(r)).reply(),
{
    match r {
        Ok(data) => ok(data),
        Err(e) => err(e),
    }
}

/// Dispatches one decoded [`Request`] against a backend, producing the
/// [`Response`] to encode back to the guest: the backend's answer to exactly
/// the requested call.
pub fn dispatch<B: HipBackend + ?Sized>(backend: &mut B, req: Request) -> (resp: Response)
    ensures
        exists|answer: Answer| #[trigger]
            old(backend).answers(req@, answer, final(backend).state()) && answer.suits(req@)
                && resp@ == answer.reply(),
{
    let ghost call = req@;
    match req {
        Request::Init => {
            let r = backend.init();
            assert(old(backend).answers(call, Answer::Done(r), backend.state()));
            done_response(r)
        },
        Request::DeviceGetCount => {
            let r = backend.device_get_count();
            assert(old(backend).answers(call, Answer::Count(r), backend.state()));
            count_response(r)
        },
        Request::DeviceGetName { device } => {
            let r = backend.device_get_name(device);
            assert(old(backend).answers(call, Answer::Name(named(r)), backend.state()));
            name_response(r)
        },
        Request::DeviceTotalMem { device } => {
            let r = backend.device_total_mem(device);
            assert(old(backend).answers(call, Answer::Word(r), backend.state()));
            word_response(r)
        },
        Request::MemAlloc { size } => {
            let r = backend.mem_alloc(size);
            assert(old(backend).answers(call, Answer::Word(r), backend.state()));
            word_response(r)
        },
        Request::MemFree { dptr } => {
            let r = backend.mem_free(dptr);
            assert(old(backend).answers(call, Answer::Done(r), backend.state()));
            done_response(r)
        },
        Request::MemcpyHtoD { dptr, data } => {
            let r = backend.memcpy_h2d(dptr, data.as_slice());
            assert(old(backend).answers(call, Answer::Done(r), backend.state()));
            done_response(r)
        },
        Request::MemcpyDtoH { dptr, size } => {
            let r = backend.memcpy_d2h(dptr, size);
            assert(old(backend).answers(call, Answer::Data(copied(r)), backend.state()));
            data_response(r)
        },
        Request::MemcpyDtoD { dst, src, size } => {
            let r = backend.memcpy_d2d(dst, src, size);
            assert(old(backend).answers(call, Answer::Done(r), backend.state()));
            done_response(r)
        },
        Request::DeviceSynchronize => {
            let r = backend.device_synchronize();
            assert(old(backend).answers(call, Answer::Done(r), backend.state()));
            done_response(r)
        },
    }
}

/// A reply carries data only where its status is success.
pub proof fn law_failed_reply_has_no_data(answer: Answer)
    requires
        answer.reply().status != 0,
    ensures
        answer.reply().data.len() == 0,
        answer.error() == Some(answer.reply().status),
{
}

} // verus!
