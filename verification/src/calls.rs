//! What calls of the functions of this library come to, in terms of what they
//! are given and what they return.

use crate::archive::append_sparse;
use crate::blockstat;
use crate::blockstat::device_sectors_written;
use crate::bytes::{
    i32_at, read_i32, read_u32, read_u64, u32_at, u64_at, write_i32, write_u32, write_u64, Cursor,
};
use crate::capture;
use crate::capture::ExactStream;
use crate::client;
use crate::client::{count_in, response_data, word_in, Client, HipRpcError};
use crate::dialer::{Dialed, Dialer, Endpoint, Place};
use crate::driver::{Called, DriverCall, Returned, Wanted};
use crate::extents;
use crate::extents::{extend_map, scan_extents};
use crate::forwarding;
use crate::gpu;
use crate::gpu::RealHipBackend;
use crate::host;
use crate::host::{
    count_response, data_response, dispatch, done_response, name_response, word_response,
    HipBackend,
};
use crate::loader::{Opener, Tried};
use crate::proto;
use crate::proto::{
    decode_request, decode_response, encode_request, encode_response, read_msg, write_msg, Call, Op,
    Request, Response,
};
use crate::shim;
use crate::shim::{
    connect, endpoint, hipDeviceGetName, hipDeviceSynchronize, hipDeviceTotalMem, hipFree,
    hipGetDeviceCount, hipGetErrorString, hipInit, hipMalloc, hipMemcpy, hip_err, with_client,
    Link,
};
use crate::stream;
use crate::stream::{Action, Asked, IoError, IoErrorKind, Step, Stream};
use crate::text;
use crate::text::decimal_text;
use crate::unpack;
use crate::wire;
use vstd::prelude::*;

verus! {

/// `hip_err` gives the error of the host itself, 100 for a stream that failed
/// and 801 for a reply that was not to be understood.
pub proof fn law_hip_err(e: HipRpcError, status: i32)
    requires
        call_ensures(hip_err, (e,), status),
    ensures
        match e {
            HipRpcError::Hip(error) => status == error,
            HipRpcError::Io(_) => status == 100,
            HipRpcError::Protocol(_) => status == 801,
        },
{
}

/// `hipGetErrorString` gives the text of the error with a zero character behind
/// it, and no other.
pub proof fn law_error_string(error: i32, given: &'static str)
    requires
        call_ensures(hipGetErrorString, (error,), given),
    ensures
        given@.len() > 0,
        given@.last() == '\0',
        error == 0 ==> given@.drop_last() == "hipSuccess"@,
        error == 1 ==> given@.drop_last() == "hipErrorInvalidValue"@,
        error == 2 ==> given@.drop_last() == "hipErrorOutOfMemory"@,
        error == 3 ==> given@.drop_last() == "hipErrorNotInitialized"@,
        error == 100 ==> given@.drop_last() == "hipErrorNoDevice"@,
        error == 801 ==> given@.drop_last()
            == "hipErrorNotSupported (smolvm-hip-shim: not yet implemented)"@,
        !(0 <= error <= 3) && error != 100 && error != 801 ==> given@.drop_last()
            == "hipErrorUnknown"@,
{
    assert(given@.drop_last() =~= shim::error_text(error));
}

/// `endpoint` takes `tcp:` and an address for that address, `unix:` and a path
/// for that path, and every other text for port 7001 of CID 2.
pub proof fn law_endpoint(spec: &str, e: Endpoint, rest: Seq<char>)
    requires
        call_ensures(endpoint, (spec,), e),
    ensures
        spec@ == "tcp:"@ + rest ==> (e matches Endpoint::Tcp(address) && address@ == rest),
        spec@ == "unix:"@ + rest ==> (e matches Endpoint::Unix(path) && path@ == rest),
        !"tcp:"@.is_prefix_of(spec@) && !"unix:"@.is_prefix_of(spec@) ==> e == (Endpoint::Vsock {
            cid: 2,
            port: 7001,
        }),
{
    reveal_strlit("tcp:");
    reveal_strlit("unix:");
    if spec@ == "tcp:"@ + rest {
        assert("tcp:"@ =~= spec@.take(4));
        assert(rest =~= spec@.skip(4));
    }
    if spec@ == "unix:"@ + rest {
        assert(spec@.take(4)[0] == 'u');
        assert("unix:"@ =~= spec@.take(5));
        assert(rest =~= spec@.skip(5));
    }
}

/// `connect` looks up the choice once and opens one place, the one that the
/// choice decides.
pub proof fn law_connect<
    S: for<'a> Fn(Action<'a>) -> Result<Vec<u8>, IoError>,
    E: Fn() -> Option<String>,
    O: Fn(Endpoint) -> Option<S>,
>(dialer: &mut Dialer<S, E, O>, res: Result<S, i32>)
    requires
        call_ensures(connect::<S, E, O>, (dialer,), res),
    ensures
        final(dialer).log().len() == old(dialer).log().len() + 2,
        final(dialer).log()[old(dialer).log().len() as int] matches Dialed::Chosen(choice) && (
        final(dialer).log().last() matches Dialed::Opened(place, opened) && {
            &&& choice is None ==> place == (Place::Vsock { cid: 2, port: 7001 })
            &&& choice matches Some(text) ==> {
                &&& forall|rest: Seq<char>|
                    text == #[trigger] ("tcp:"@ + rest) ==> place == Place::Tcp(rest)
                &&& forall|rest: Seq<char>|
                    text == #[trigger] ("unix:"@ + rest) ==> place == Place::Unix(rest)
                &&& !"tcp:"@.is_prefix_of(text) && !"unix:"@.is_prefix_of(text) ==> place == (
                Place::Vsock { cid: 2, port: 7001 })
            }
            &&& opened matches Some(s) ==> res == Ok::<S, i32>(s)
            &&& opened is None ==> res == Err::<S, i32>(100)
        }),
{
    shim::law_connect_opens_the_chosen_place(*old(dialer), *final(dialer), res);
}

/// The functions of the guest that have no result but their status ask the host
/// for exactly what they are called for.
pub proof fn law_calls_without_result<
    S: for<'a> Fn(Action<'a>) -> Result<Vec<u8>, IoError>,
    E: Fn() -> Option<String>,
    O: Fn(Endpoint) -> Option<S>,
>(link: &mut Link<S, E, O>, flags: i32, ptr: u64, status: i32)
    ensures
        call_ensures(hipInit::<S, E, O>, (link, flags), status) ==> final(link).ended(
            old(link),
            Call::Init,
            status,
        ),
        call_ensures(hipFree::<S, E, O>, (link, ptr), status) ==> final(link).ended(
            old(link),
            Call::MemFree { dptr: ptr },
            status,
        ),
        call_ensures(hipDeviceSynchronize::<S, E, O>, (link,), status) ==> final(link).ended(
            old(link),
            Call::DeviceSynchronize,
            status,
        ),
{
}

/// `hipGetDeviceCount` without a target is error 1 and asks nothing. With one,
/// the target gets the count where the status is 0, and keeps what it held where
/// it is not.
pub proof fn law_get_device_count<
    S: for<'a> Fn(Action<'a>) -> Result<Vec<u8>, IoError>,
    E: Fn() -> Option<String>,
    O: Fn(Endpoint) -> Option<S>,
>(link: &mut Link<S, E, O>, count: Option<&mut i32>, status: i32)
    requires
        call_ensures(hipGetDeviceCount::<S, E, O>, (link, count), status),
    ensures
        count is None ==> status == 1 && *final(link) == *old(link),
        count matches Some(p) ==> {
            ||| status == 100 && final(link).client is None && *final(p) == *p
            ||| exists|data: Result<Seq<u8>, HipRpcError>|
                {
                    &&& #[trigger] final(link).asked(old(link), Call::DeviceGetCount, data)
                    &&& data matches Ok(bytes) ==> {
                        &&& bytes.len() >= 4 ==> status == 0 && *final(p) == wire::i32_in(bytes, 0)
                        &&& bytes.len() < 4 ==> status == 801 && *final(p) == *p
                    }
                    &&& data is Err ==> status == shim::status_of(data) && *final(p) == *p
                }
        },
{
    if let Some(p) = count {
        if !final(link).refused(old(link), status) {
            let res = choose|res: Result<i32, HipRpcError>| #[trigger]
                final(link).got_count(old(link), res) && status == shim::status_of(res)
                    && *final(p) == shim::kept_or(res, *p);
            shim::law_count_of_a_call(*old(link), *final(link), res);
        }
    }
}

/// `hipDeviceTotalMem` and `hipMalloc` without a target are error 1 and ask
/// nothing. With one, the host is asked about that device or for that size, and
/// the target gets the number that it sent where the status is 0, and keeps what
/// it held where it is not.
pub proof fn law_calls_with_a_number<
    S: for<'a> Fn(Action<'a>) -> Result<Vec<u8>, IoError>,
    E: Fn() -> Option<String>,
    O: Fn(Endpoint) -> Option<S>,
>(
    link: &mut Link<S, E, O>,
    target: Option<&mut u64>,
    device: i32,
    size: u64,
    call: Call,
    status: i32,
)
    requires
        ({
            ||| call == (Call::DeviceTotalMem { device }) && call_ensures(
                hipDeviceTotalMem::<S, E, O>,
                (link, target, device),
                status,
            )
            ||| call == (Call::MemAlloc { size }) && call_ensures(
                hipMalloc::<S, E, O>,
                (link, target, size),
                status,
            )
        }),
    ensures
        target is None ==> status == 1 && *final(link) == *old(link),
        target matches Some(p) ==> {
            ||| status == 100 && final(link).client is None && *final(p) == *p
            ||| exists|data: Result<Seq<u8>, HipRpcError>|
                {
                    &&& #[trigger] final(link).asked(old(link), call, data)
                    &&& data matches Ok(bytes) ==> {
                        &&& bytes.len() >= 8 ==> status == 0 && *final(p) == wire::u64_in(bytes, 0)
                        &&& bytes.len() < 8 ==> status == 801 && *final(p) == *p
                    }
                    &&& data is Err ==> status == shim::status_of(data) && *final(p) == *p
                }
        },
{
    if let Some(p) = target {
        if !final(link).refused(old(link), status) {
            let short = if call is MemAlloc {
                "short MemAlloc reply"@
            } else {
                "short DeviceTotalMem reply"@
            };
            let res = choose|res: Result<u64, HipRpcError>| #[trigger]
                final(link).got_word(old(link), call, short, res) && status == shim::status_of(res)
                    && *final(p) == shim::kept_or(res, *p);
            shim::law_word_of_a_call(*old(link), *final(link), call, short, res);
        }
    }
}

/// `hipDeviceGetName` without a target or without room is error 1 and asks
/// nothing. Else the host is asked about that device, and where the status is 0
/// what is stored is as much of the name as leaves room for a zero byte, and
/// that byte.
pub proof fn law_device_get_name<
    S: for<'a> Fn(Action<'a>) -> Result<Vec<u8>, IoError>,
    E: Fn() -> Option<String>,
    O: Fn(Endpoint) -> Option<S>,
>(link: &mut Link<S, E, O>, name: Option<&mut Vec<u8>>, len: i32, device: i32, status: i32)
    requires
        call_ensures(hipDeviceGetName::<S, E, O>, (link, name, len, device), status),
    ensures
        name is None || len <= 0 ==> status == 1 && *final(link) == *old(link),
        name matches Some(p) ==> len > 0 ==> {
            ||| status == 100 && final(link).client is None && *final(p) == *p
            ||| exists|data: Result<Seq<u8>, HipRpcError>|
                {
                    &&& #[trigger] final(link).asked(
                        old(link),
                        Call::DeviceGetName { device },
                        data,
                    )
                    &&& data matches Ok(bytes) ==> {
                        let stored = final(p)@;
                        &&& status == 0
                        &&& stored.len() > 0 && stored.last() == 0
                        &&& vstd::utf8::valid_utf8(bytes) ==> {
                            &&& bytes.len() <= len - 1 ==> stored.drop_last() == bytes
                            &&& bytes.len() > len - 1 ==> stored.drop_last() == bytes.take(len - 1)
                        }
                    }
                    &&& data is Err ==> status == shim::status_of(data) && *final(p) == *p
                }
        },
{
    if let Some(p) = name {
        if len > 0 && !final(link).refused(old(link), status) {
            let res = choose|res: Result<String, HipRpcError>| #[trigger]
                final(link).got_name(old(link), device, res) && status == shim::status_of(res)
                    && match res {
                    Ok(given) => final(p)@ == shim::c_name(given@, len),
                    Err(_) => *final(p) == *p,
                };
            shim::law_name_of_a_call(*old(link), *final(link), device, res);
            if let Ok(given) = res {
                shim::law_name_fits(given@, len);
                let all = vstd::utf8::encode_utf8(given@);
                let kept = final(p)@.drop_last();
                assert(kept == all.take(kept.len() as int));
                assert(all.take(all.len() as int) =~= all);
            }
        }
    }
}

/// `hipMemcpy` asks the host for a copy of exactly these bytes at these
/// addresses: to the device (1), from it (2), within it (3). Any other kind is
/// error 801 and asks nothing. Bytes are handed to the guest only by a copy from
/// the device that has status 0, and then all that the host sent.
pub proof fn law_memcpy<
    S: for<'a> Fn(Action<'a>) -> Result<Vec<u8>, IoError>,
    E: Fn() -> Option<String>,
    O: Fn(Endpoint) -> Option<S>,
    L: FnOnce(u64, u64) -> Vec<u8>,
>(
    link: &mut Link<S, E, O>,
    load: L,
    stored: &mut Option<Vec<u8>>,
    dst: u64,
    src: u64,
    size: u64,
    kind: i32,
    status: i32,
)
    requires
        call_ensures(
            hipMemcpy::<S, E, O, L>,
            (link, load, stored, dst, src, size, kind),
            status,
        ),
    ensures
        kind != 2 ==> *final(stored) == *old(stored),
        kind == 1 ==> exists|loaded: Vec<u8>| #[trigger]
            call_ensures(load, (src, size), loaded) && final(link).ended(
                old(link),
                Call::MemcpyHtoD { dptr: dst, data: loaded@ },
                status,
            ),
        kind == 2 ==> {
            ||| status == 100 && final(link).client is None && *final(stored) == *old(stored)
            ||| exists|data: Result<Seq<u8>, HipRpcError>|
                {
                    &&& #[trigger] final(link).asked(
                        old(link),
                        Call::MemcpyDtoH { dptr: src, size },
                        data,
                    )
                    &&& data matches Ok(bytes) ==> status == 0 && (*final(stored) matches Some(v)
                        && v@ == bytes)
                    &&& data is Err ==> status == shim::status_of(data) && *final(stored) == *old(
                        stored,
                    )
                }
        },
        kind == 3 ==> final(link).ended(old(link), Call::MemcpyDtoD { dst, src, size }, status),
        !(1 <= kind <= 3) ==> status == 801 && *final(link) == *old(link),
{
    if kind == 2 && !final(link).refused(old(link), status) {
        let data = choose|data: Result<Seq<u8>, HipRpcError>| #[trigger]
            final(link).asked(old(link), Call::MemcpyDtoH { dptr: src, size }, data) && status
                == shim::status_of(data) && match data {
                Ok(bytes) => *final(stored) matches Some(v) && v@ == bytes,
                Err(_) => *final(stored) == *old(stored),
            };
        assert(final(link).asked(old(link), Call::MemcpyDtoH { dptr: src, size }, data));
    }
}

/// Whether `after` came from `before` by one call of the runtime, of `wanted`,
/// which returned `returned`.
pub open spec fn called_once<D: for<'a> Fn(DriverCall<'a>) -> Option<Returned>>(
    before: RealHipBackend<D>,
    after: RealHipBackend<D>,
    wanted: Wanted,
    returned: Option<Returned>,
) -> bool {
    &&& after.driver().run() == before.driver().run()
    &&& after.driver().log() == before.driver().log().push(Called { wanted, returned })
}

/// What the runtime returned to the backend last.
pub open spec fn last_returned<D: for<'a> Fn(DriverCall<'a>) -> Option<Returned>>(
    b: RealHipBackend<D>,
) -> Option<Returned> {
    b.driver().log().last().returned
}

/// The queries of the backend ask the runtime once, about the device that is
/// asked about, and give what it returned for it.
pub proof fn law_backend_queries<D: for<'a> Fn(DriverCall<'a>) -> Option<Returned>>(
    b: &mut RealHipBackend<D>,
    device: i32,
    count: Result<i32, i32>,
    memory: Result<u64, i32>,
    name: Result<String, i32>,
)
    ensures
        call_ensures(RealHipBackend::<D>::device_get_count, (b,), count) ==> {
            let returned = last_returned(*final(b));
            &&& called_once(*old(b), *final(b), Wanted::GetDeviceCount, returned)
            &&& count == forwarding::outcome(returned, returned->Some_0.count)
            &&& final(b).held() == old(b).held()
        },
        call_ensures(RealHipBackend::<D>::device_total_mem, (b, device), memory) ==> {
            let returned = last_returned(*final(b));
            &&& called_once(*old(b), *final(b), Wanted::DeviceTotalMem { device }, returned)
            &&& memory == forwarding::outcome(returned, returned->Some_0.word)
            &&& final(b).held() == old(b).held()
        },
        call_ensures(RealHipBackend::<D>::device_get_name, (b, device), name) ==> {
            let returned = last_returned(*final(b));
            &&& called_once(
                *old(b),
                *final(b),
                Wanted::DeviceGetName { capacity: 256, device },
                returned,
            )
            &&& name is Ok <==> (returned matches Some(r) && r.status == 0)
            &&& name matches Err(e) ==> e == match returned {
                Some(r) => r.status,
                None => 999,
            }
            &&& final(b).held() == old(b).held()
        },
{
    let before = old(b).device();
    let after = final(b).device();
    if call_ensures(RealHipBackend::<D>::device_get_count, (b,), count) {
        forwarding::law_count_is_that_of_the_runtime(before, host::Answer::Count(count), after);
        assert(after.called =~= before.called.push(after.called.last()));
    }
    if call_ensures(RealHipBackend::<D>::device_total_mem, (b, device), memory) {
        forwarding::law_memory_is_that_of_the_device(
            before,
            device,
            host::Answer::Word(memory),
            after,
        );
        assert(after.called =~= before.called.push(after.called.last()));
    }
    if call_ensures(RealHipBackend::<D>::device_get_name, (b, device), name) {
        forwarding::law_name_is_that_of_the_device(
            before,
            device,
            host::Answer::Name(host::named(name)),
            after,
            0,
        );
        assert(after.called =~= before.called.push(after.called.last()));
    }
}

/// The name that the backend gives is the text in the runtime's buffer before
/// its first zero byte.
pub proof fn law_backend_name<D: for<'a> Fn(DriverCall<'a>) -> Option<Returned>>(
    b: &mut RealHipBackend<D>,
    device: i32,
    name: Result<String, i32>,
    n: int,
)
    requires
        call_ensures(RealHipBackend::<D>::device_get_name, (b, device), name),
        name is Ok,
        ({
            let buffer = last_returned(*final(b))->Some_0.buffer@;
            &&& 0 <= n <= buffer.len()
            &&& forall|i: int| 0 <= i < n ==> #[trigger] buffer[i] != 0
            &&& n < buffer.len() ==> buffer[n] == 0
        }),
    ensures
        ({
            let text = last_returned(*final(b))->Some_0.buffer@.take(n);
            &&& vstd::utf8::valid_utf8(text) ==> vstd::utf8::encode_utf8(name->Ok_0@) == text
            &&& !vstd::utf8::valid_utf8(text) ==> name->Ok_0@ == text::repaired(text)
        }),
{
    let before = old(b).device();
    let after = final(b).device();
    let answer = host::Answer::Name(host::named(name));
    forwarding::law_name_is_that_of_the_device(before, device, answer, after, n);
    let text = last_returned(*final(b))->Some_0.buffer@.take(n);
    if vstd::utf8::valid_utf8(text) {
        vstd::utf8::decode_utf8_encode_utf8(text);
    }
}

/// Initializing and synchronizing call the function of the runtime for it once,
/// without flags, and give its status.
pub proof fn law_backend_init_and_synchronize<
    D: for<'a> Fn(DriverCall<'a>) -> Option<Returned>,
>(b: &mut RealHipBackend<D>, wanted: Wanted, r: Result<(), i32>)
    requires
        ({
            ||| wanted == (Wanted::Init { flags: 0 }) && call_ensures(
                RealHipBackend::<D>::init,
                (b,),
                r,
            )
            ||| wanted == Wanted::DeviceSynchronize && call_ensures(
                RealHipBackend::<D>::device_synchronize,
                (b,),
                r,
            )
        }),
    ensures
        called_once(*old(b), *final(b), wanted, last_returned(*final(b))),
        r == forwarding::outcome(last_returned(*final(b)), ()),
        final(b).held() == old(b).held(),
{
    let before = old(b).device();
    let after = final(b).device();
    let call = if wanted is Init {
        Call::Init
    } else {
        Call::DeviceSynchronize
    };
    forwarding::law_init_and_synchronize(before, call, host::Answer::Done(r), after);
    assert(after.called =~= before.called.push(after.called.last()));
}

/// An allocation asks the runtime once for the size that is asked for, and gives
/// the address that it returned, which is then held with that size. Freeing
/// frees the address that is given once, which is then not held, unless the
/// library lacks the function.
pub proof fn law_backend_allocations<D: for<'a> Fn(DriverCall<'a>) -> Option<Returned>>(
    b: &mut RealHipBackend<D>,
    size: u64,
    dptr: u64,
    allocated: Result<u64, i32>,
    freed: Result<(), i32>,
)
    ensures
        call_ensures(RealHipBackend::<D>::mem_alloc, (b, size), allocated) ==> {
            let returned = last_returned(*final(b));
            &&& called_once(*old(b), *final(b), Wanted::Malloc { size }, returned)
            &&& allocated == forwarding::outcome(returned, returned->Some_0.word)
            &&& final(b).held() == match allocated {
                Ok(address) => old(b).held().insert(address, size),
                Err(_) => old(b).held(),
            }
        },
        call_ensures(RealHipBackend::<D>::mem_free, (b, dptr), freed) ==> {
            let returned = last_returned(*final(b));
            &&& called_once(*old(b), *final(b), Wanted::Free { dptr }, returned)
            &&& freed == forwarding::outcome(returned, ())
            &&& final(b).held() == match returned {
                Some(_) => old(b).held().remove(dptr),
                None => old(b).held(),
            }
        },
{
    let before = old(b).device();
    let after = final(b).device();
    if call_ensures(RealHipBackend::<D>::mem_alloc, (b, size), allocated) {
        let answer = host::Answer::Word(allocated);
        forwarding::law_allocation_is_of_the_size_asked_for(before, size, answer, after);
        assert(after.called =~= before.called.push(after.called.last()));
    }
    if call_ensures(RealHipBackend::<D>::mem_free, (b, dptr), freed) {
        let answer = host::Answer::Done(freed);
        forwarding::law_exactly_the_address_is_freed(before, dptr, answer, after);
        assert(after.called =~= before.called.push(after.called.last()));
    }
}

/// A copy calls the runtime once, for exactly the bytes and the addresses that
/// it is given and in its direction, and a copy from the device gives all that
/// the runtime put into the buffer.
pub proof fn law_backend_copies<D: for<'a> Fn(DriverCall<'a>) -> Option<Returned>>(
    b: &mut RealHipBackend<D>,
    dptr: u64,
    src: u64,
    size: u64,
    data: &[u8],
    done: Result<(), i32>,
    taken: Result<Vec<u8>, i32>,
)
    ensures
        call_ensures(RealHipBackend::<D>::memcpy_h2d, (b, dptr, data), done) ==> {
            let returned = last_returned(*final(b));
            let wanted = Wanted::CopyIn { dptr, data: data@, kind: 1 };
            &&& called_once(*old(b), *final(b), wanted, returned)
            &&& done == forwarding::outcome(returned, ())
            &&& final(b).held() == old(b).held()
        },
        call_ensures(RealHipBackend::<D>::memcpy_d2d, (b, dptr, src, size), done) ==> {
            let returned = last_returned(*final(b));
            let wanted = Wanted::CopyWithin { dst: dptr, src, size, kind: 3 };
            &&& called_once(*old(b), *final(b), wanted, returned)
            &&& done == forwarding::outcome(returned, ())
            &&& final(b).held() == old(b).held()
        },
        call_ensures(RealHipBackend::<D>::memcpy_d2h, (b, dptr, size), taken) ==> {
            let returned = last_returned(*final(b));
            let wanted = Wanted::CopyOut { dptr, size, kind: 2 };
            &&& called_once(*old(b), *final(b), wanted, returned)
            &&& taken is Ok <==> (returned matches Some(r) && r.status == 0)
            &&& taken matches Ok(bytes) ==> bytes@ == returned->Some_0.buffer@ && bytes@.len()
                == size
            &&& taken matches Err(e) ==> e == match returned {
                Some(r) => r.status,
                None => 999,
            }
            &&& final(b).held() == old(b).held()
        },
{
    let before = old(b).device();
    let after = final(b).device();
    if call_ensures(RealHipBackend::<D>::memcpy_h2d, (b, dptr, data), done) {
        let call = Call::MemcpyHtoD { dptr, data: data@ };
        forwarding::law_copies_are_those_of_the_request(
            before,
            call,
            host::Answer::Done(done),
            after,
        );
        assert(after.called =~= before.called.push(after.called.last()));
    }
    if call_ensures(RealHipBackend::<D>::memcpy_d2d, (b, dptr, src, size), done) {
        let call = Call::MemcpyDtoD { dst: dptr, src, size };
        forwarding::law_copies_are_those_of_the_request(
            before,
            call,
            host::Answer::Done(done),
            after,
        );
        assert(after.called =~= before.called.push(after.called.last()));
    }
    if call_ensures(RealHipBackend::<D>::memcpy_d2h, (b, dptr, size), taken) {
        let call = Call::MemcpyDtoH { dptr, size };
        forwarding::law_copies_are_those_of_the_request(
            before,
            call,
            host::Answer::Data(host::copied(taken)),
            after,
        );
        assert(after.called =~= before.called.push(after.called.last()));
    }
}

/// Every function of the client makes one round-trip, for the call that it is
/// for, with the arguments that it is given.
pub proof fn law_client_calls<S: for<'a> Fn(Action<'a>) -> Result<Vec<u8>, IoError>>(
    c: &mut Client<S>,
    call: Call,
    dptr: u64,
    src: u64,
    size: u64,
    bytes: &[u8],
    res: Result<(), HipRpcError>,
)
    requires
        ({
            ||| call == Call::Init && call_ensures(Client::<S>::init, (c,), res)
            ||| call == Call::DeviceSynchronize && call_ensures(
                Client::<S>::device_synchronize,
                (c,),
                res,
            )
            ||| call == (Call::MemFree { dptr }) && call_ensures(
                Client::<S>::mem_free,
                (c, dptr),
                res,
            )
            ||| call == (Call::MemcpyHtoD { dptr, data: bytes@ }) && call_ensures(
                Client::<S>::memcpy_h2d,
                (c, dptr, bytes),
                res,
            )
            ||| call == (Call::MemcpyDtoD { dst: dptr, src, size }) && call_ensures(
                Client::<S>::memcpy_d2d,
                (c, dptr, src, size),
                res,
            )
        }),
    ensures
        exists|data: Result<Seq<u8>, HipRpcError>|
            {
                &&& client::exchanged(
                    final(c).stream().log().skip(old(c).stream().log().len() as int),
                    call,
                    data,
                )
                &&& #[trigger] final(c).called(old(c), call, data)
                &&& data is Ok ==> res is Ok
                &&& data matches Err(e) ==> res == Err::<(), HipRpcError>(e)
            },
{
    let data = choose|data: Result<Seq<u8>, HipRpcError>| #[trigger]
        final(c).called(old(c), call, data) && client::as_unit(data, res);
    assert(final(c).called(old(c), call, data));
    client::law_call_is_one_exchange(*old(c), *final(c), call, data);
}

/// The queries of the client make one round-trip, about the device or for the
/// size that they are given, and give the number at the head of the data that
/// came back.
pub proof fn law_client_numbers<S: for<'a> Fn(Action<'a>) -> Result<Vec<u8>, IoError>>(
    c: &mut Client<S>,
    call: Call,
    device: i32,
    size: u64,
    res: Result<u64, HipRpcError>,
)
    requires
        ({
            ||| call == (Call::DeviceTotalMem { device }) && call_ensures(
                Client::<S>::device_total_mem,
                (c, device),
                res,
            )
            ||| call == (Call::MemAlloc { size }) && call_ensures(
                Client::<S>::mem_alloc,
                (c, size),
                res,
            )
        }),
    ensures
        exists|data: Result<Seq<u8>, HipRpcError>|
            {
                &&& client::exchanged(
                    final(c).stream().log().skip(old(c).stream().log().len() as int),
                    call,
                    data,
                )
                &&& #[trigger] final(c).called(old(c), call, data)
                &&& data matches Ok(bytes) ==> {
                    &&& bytes.len() >= 8 ==> (res matches Ok(w) && w == wire::u64_in(bytes, 0))
                    &&& bytes.len() < 8 ==> (res matches Err(HipRpcError::Protocol(m)) && m@
                        == if call is MemAlloc {
                        "short MemAlloc reply"@
                    } else {
                        "short DeviceTotalMem reply"@
                    })
                }
                &&& data matches Err(e) ==> res == Err::<u64, HipRpcError>(e)
            },
{
    let short = if call is MemAlloc {
        "short MemAlloc reply"@
    } else {
        "short DeviceTotalMem reply"@
    };
    let data = choose|data: Result<Seq<u8>, HipRpcError>| #[trigger]
        final(c).called(old(c), call, data) && client::as_word(data, short, res);
    assert(final(c).called(old(c), call, data));
    client::law_call_is_one_exchange(*old(c), *final(c), call, data);
    if let Ok(bytes) = data {
        if bytes.len() >= 8 {
            wire::lemma_word_is_u64(bytes, 0);
        }
    }
}

/// The other functions of the client with a result: the device count is the
/// number at the head of the data that came back, the name of the device is the
/// text of it, and a copy from the device gives all of it.
pub proof fn law_client_data<S: for<'a> Fn(Action<'a>) -> Result<Vec<u8>, IoError>>(
    c: &mut Client<S>,
    device: i32,
    dptr: u64,
    size: u64,
    count: Result<i32, HipRpcError>,
    name: Result<String, HipRpcError>,
    taken: Result<Vec<u8>, HipRpcError>,
)
    ensures
        call_ensures(Client::<S>::device_get_count, (c,), count) ==> exists|
            data: Result<Seq<u8>, HipRpcError>,
        |
            {
                &&& #[trigger] final(c).called(old(c), Call::DeviceGetCount, data)
                &&& data matches Ok(bytes) ==> {
                    &&& bytes.len() >= 4 ==> (count matches Ok(n) && n == wire::i32_in(bytes, 0))
                    &&& bytes.len() < 4 ==> (count matches Err(HipRpcError::Protocol(m)) && m@
                        == "short DeviceGetCount reply"@)
                }
                &&& data matches Err(e) ==> count == Err::<i32, HipRpcError>(e)
            },
        call_ensures(Client::<S>::device_get_name, (c, device), name) ==> exists|
            data: Result<Seq<u8>, HipRpcError>,
        |
            {
                &&& #[trigger] final(c).called(old(c), Call::DeviceGetName { device }, data)
                &&& data matches Ok(bytes) ==> (name matches Ok(given) && (vstd::utf8::valid_utf8(
                    bytes,
                ) ==> vstd::utf8::encode_utf8(given@) == bytes))
                &&& data matches Err(e) ==> name == Err::<String, HipRpcError>(e)
            },
        call_ensures(Client::<S>::memcpy_d2h, (c, dptr, size), taken) ==> exists|
            data: Result<Seq<u8>, HipRpcError>,
        |
            {
                &&& #[trigger] final(c).called(old(c), Call::MemcpyDtoH { dptr, size }, data)
                &&& data matches Ok(bytes) ==> (taken matches Ok(v) && v@ == bytes)
                &&& data matches Err(e) ==> taken == Err::<Vec<u8>, HipRpcError>(e)
            },
{
    if call_ensures(Client::<S>::device_get_count, (c,), count) {
        let call = Call::DeviceGetCount;
        let data = choose|data: Result<Seq<u8>, HipRpcError>| #[trigger]
            final(c).called(old(c), call, data) && client::as_count(data, count);
        assert(final(c).called(old(c), call, data));
        if let Ok(bytes) = data {
            if bytes.len() >= 4 {
                wire::law_signed_numbers(0, bytes);
            }
        }
    }
    if call_ensures(Client::<S>::device_get_name, (c, device), name) {
        let call = Call::DeviceGetName { device };
        let data = choose|data: Result<Seq<u8>, HipRpcError>| #[trigger]
            final(c).called(old(c), call, data) && client::as_text(data, name);
        assert(final(c).called(old(c), call, data));
        if let Ok(bytes) = data {
            if vstd::utf8::valid_utf8(bytes) {
                vstd::utf8::decode_utf8_encode_utf8(bytes);
            }
        }
    }
    if call_ensures(Client::<S>::memcpy_d2h, (c, dptr, size), taken) {
        let call = Call::MemcpyDtoH { dptr, size };
        assert(final(c).called(old(c), call, client::shown(taken)));
    }
}

/// The data of a request has a length of 64 bits.
proof fn lemma_request_fits(req: Request)
    ensures
        req@.fits(),
{
    if let Request::MemcpyHtoD { data, .. } = req {
        assert(data@.len() == data.len());
    }
}

/// A request that was encoded is decoded as itself, whatever bytes follow it; a
/// part of it is not decoded, but is an unexpected end.
pub proof fn law_request_is_decoded_as_encoded(
    req: Request,
    buf: Vec<u8>,
    received: &[u8],
    decoded: Result<Request, IoError>,
)
    requires
        call_ensures(encode_request, (&req,), buf),
        call_ensures(decode_request, (received,), decoded),
    ensures
        buf@.is_prefix_of(received@) ==> (decoded matches Ok(back) && back@ == req@),
        received@.is_prefix_of(buf@) && received@.len() < buf@.len() ==> (decoded matches Err(e)
            && e.says(IoErrorKind::UnexpectedEof, "failed to fill whole buffer"@)),
{
    let call = req@;
    lemma_request_fits(req);
    if buf@.is_prefix_of(received@) {
        let rest = received@.skip(buf@.len() as int);
        proto::law_request_round_trip(call, rest);
        assert(call.payload() + rest =~= received@);
    }
    if received@.is_prefix_of(buf@) && received@.len() < buf@.len() {
        wire::law_part_of_a_request_is_truncated(call, received@.len() as int);
        assert(received@ =~= call.payload().take(received@.len() as int));
    }
}

/// An encoded request is its opcode and its arguments, each at its place.
pub proof fn law_encoded_request(req: Request, buf: Vec<u8>)
    requires
        call_ensures(encode_request, (&req,), buf),
    ensures
        ({
            let p = buf@;
            match req {
                Request::Init => p == seq![0x01u8],
                Request::DeviceGetCount => p == seq![0x02u8],
                Request::DeviceGetName { device } => {
                    p.len() == 5 && p[0] == 0x03 && wire::i32_in(p, 1) == device
                },
                Request::DeviceTotalMem { device } => {
                    p.len() == 5 && p[0] == 0x04 && wire::i32_in(p, 1) == device
                },
                Request::MemAlloc { size } => {
                    p.len() == 9 && p[0] == 0x10 && wire::u64_in(p, 1) == size
                },
                Request::MemFree { dptr } => {
                    p.len() == 9 && p[0] == 0x11 && wire::u64_in(p, 1) == dptr
                },
                Request::MemcpyHtoD { dptr, data } => {
                    &&& p.len() == 17 + data@.len()
                    &&& p[0] == 0x12
                    &&& wire::u64_in(p, 1) == dptr
                    &&& wire::u64_in(p, 9) == data@.len()
                    &&& p.skip(17) == data@
                },
                Request::MemcpyDtoH { dptr, size } => {
                    &&& p.len() == 17
                    &&& p[0] == 0x13
                    &&& wire::u64_in(p, 1) == dptr
                    &&& wire::u64_in(p, 9) == size
                },
                Request::MemcpyDtoD { dst, src, size } => {
                    &&& p.len() == 25
                    &&& p[0] == 0x14
                    &&& wire::u64_in(p, 1) == dst
                    &&& wire::u64_in(p, 9) == src
                    &&& wire::u64_in(p, 17) == size
                },
                Request::DeviceSynchronize => p == seq![0x20u8],
            }
        }),
{
    lemma_request_fits(req);
    wire::law_layout_of_requests(req@);
}

/// Bytes that are not decoded as a request begin with no opcode, or else end too
/// early.
pub proof fn law_what_is_not_decoded(received: &[u8], e: IoError)
    requires
        call_ensures(decode_request, (received,), Err(e)),
    ensures
        ({
            let b = received@[0];
            if received@.len() > 0 && !(1 <= b <= 4) && !(0x10 <= b <= 0x14) && b != 0x20 {
                e.says(IoErrorKind::InvalidData, "unknown opcode"@)
            } else {
                e.says(IoErrorKind::UnexpectedEof, "failed to fill whole buffer"@)
            }
        }),
{
    wire::law_what_is_no_request(received@);
}

/// A response is encoded as its status in four bytes and its data, and decoded
/// as itself; less than four bytes are an unexpected end.
pub proof fn law_response_is_decoded_as_encoded(
    resp: Response,
    buf: Vec<u8>,
    received: &[u8],
    decoded: Result<Response, IoError>,
)
    requires
        call_ensures(encode_response, (&resp,), buf),
        call_ensures(decode_response, (received,), decoded),
    ensures
        buf@.len() == 4 + resp.data@.len(),
        wire::i32_in(buf@, 0) == resp.status,
        buf@.skip(4) == resp.data@,
        received@.len() >= 4 ==> (decoded matches Ok(back) && back.status == wire::i32_in(
            received@,
            0,
        ) && back.data@ == received@.skip(4)),
        received@.len() < 4 ==> (decoded matches Err(e) && e.says(
            IoErrorKind::UnexpectedEof,
            "failed to fill whole buffer"@,
        )),
{
    wire::law_layout_of_responses(received@, resp@);
    if received@.len() >= 4 {
        assert(decoded->Ok_0@ == proto::parse_reply(received@)->Ok_0);
    }
}

/// Each opcode has its wire value, and is recognised by that value and no other.
pub proof fn law_opcodes(op: Op, b: u8, value: u8, recognised: Option<Op>)
    requires
        call_ensures(Op::to_u8, (op,), value),
        call_ensures(Op::from_u8, (b,), recognised),
    ensures
        value == match op {
            Op::Init => 0x01,
            Op::DeviceGetCount => 0x02,
            Op::DeviceGetName => 0x03,
            Op::DeviceTotalMem => 0x04,
            Op::MemAlloc => 0x10,
            Op::MemFree => 0x11,
            Op::MemcpyHtoD => 0x12,
            Op::MemcpyDtoH => 0x13,
            Op::MemcpyDtoD => 0x14,
            Op::DeviceSynchronize => 0x20u8,
        },
        b == value <==> recognised == Some(op),
{
    if b == value {
        assert(op.code() == b);
        proto::law_opcodes_distinct(op, recognised->Some_0);
    }
}

/// A message that is written goes out as its length and its payload, and one
/// that is read takes a length and that many bytes; nothing else happens on the
/// stream.
pub proof fn law_messages<S: for<'a> Fn(Action<'a>) -> Result<Vec<u8>, IoError>>(
    s: &mut Stream<S>,
    payload: &[u8],
    written: Result<(), IoError>,
    read: Result<Vec<u8>, IoError>,
)
    ensures
        call_ensures(write_msg::<S>, (s, payload), written) ==> {
            let steps = final(s).log().skip(old(s).log().len() as int);
            &&& old(s).log().is_prefix_of(final(s).log())
            &&& proto::writes_msg(steps, payload@, written)
            &&& written is Ok ==> {
                &&& stream::sent(steps).len() == 4 + payload@.len()
                &&& wire::u32_in(stream::sent(steps), 0) == payload@.len()
                &&& stream::sent(steps).skip(4) == payload@
                &&& steps.last().asked is Flush
            }
            &&& written is Err <==> payload@.len() > 0xffff_ffff || steps.last().outcome is Err
        },
        call_ensures(read_msg::<S>, (s,), read) ==> {
            let steps = final(s).log().skip(old(s).log().len() as int);
            &&& old(s).log().is_prefix_of(final(s).log())
            &&& proto::reads_msg(steps, stream::seen(read))
        },
{
    let n = old(s).log().len() as int;
    let after = final(s).log();
    if call_ensures(write_msg::<S>, (s, payload), written) {
        let steps = choose|steps: Seq<Step>| #[trigger]
            final(s).ran(old(s), steps) && proto::writes_msg(steps, payload@, written);
        assert(after.skip(n) =~= steps);
        assert(old(s).log() =~= after.take(n));
        wire::law_message_goes_out(steps, payload@, written);
        if written is Ok {
            wire::law_bytes_of_a_frame(steps, payload@);
        }
    }
    if call_ensures(read_msg::<S>, (s,), read) {
        let steps = choose|steps: Seq<Step>| #[trigger]
            final(s).ran(old(s), steps) && proto::reads_msg(steps, stream::seen(read));
        assert(after.skip(n) =~= steps);
        assert(old(s).log() =~= after.take(n));
    }
}

/// The response to a call is status 0 and the result in its data, or the error
/// and no data.
pub proof fn law_responses(
    done: Result<(), i32>,
    count: Result<i32, i32>,
    name: Result<String, i32>,
    word: Result<u64, i32>,
    data: Result<Vec<u8>, i32>,
    resp: Response,
)
    ensures
        call_ensures(done_response, (done,), resp) ==> match done {
            Ok(_) => resp.status == 0 && resp.data@.len() == 0,
            Err(e) => resp.status == e && resp.data@.len() == 0,
        },
        call_ensures(count_response, (count,), resp) ==> match count {
            Ok(n) => resp.status == 0 && resp.data@.len() == 4 && wire::i32_in(resp.data@, 0) == n,
            Err(e) => resp.status == e && resp.data@.len() == 0,
        },
        call_ensures(name_response, (name,), resp) ==> match name {
            Ok(given) => resp.status == 0 && resp.data@ == vstd::utf8::encode_utf8(given@),
            Err(e) => resp.status == e && resp.data@.len() == 0,
        },
        call_ensures(word_response, (word,), resp) ==> match word {
            Ok(w) => resp.status == 0 && resp.data@.len() == 8 && wire::u64_in(resp.data@, 0) == w,
            Err(e) => resp.status == e && resp.data@.len() == 0,
        },
        call_ensures(data_response, (data,), resp) ==> match data {
            Ok(bytes) => resp.status == 0 && resp.data@ == bytes@,
            Err(e) => resp.status == e && resp.data@.len() == 0,
        },
{
    let reply = resp@;
    if call_ensures(count_response, (count,), resp) {
        if let Ok(n) = count {
            assert(reply == host::Answer::Count(count).reply());
            wire::law_signed_numbers(n, seq![0u8, 0, 0, 0]);
        }
    }
    if call_ensures(word_response, (word,), resp) {
        if let Ok(w) = word {
            assert(reply == host::Answer::Word(word).reply());
            wire::law_numbers_are_little_endian(w as nat);
        }
    }
    if call_ensures(done_response, (done,), resp) {
        assert(reply == host::Answer::Done(done).reply());
    }
    if call_ensures(name_response, (name,), resp) {
        assert(reply == host::Answer::Name(host::named(name)).reply());
    }
    if call_ensures(data_response, (data,), resp) {
        assert(reply == host::Answer::Data(host::copied(data)).reply());
    }
}

/// What a response means to the client, and what its data does.
pub proof fn law_meaning_of_responses(
    bytes: &[u8],
    short: &'static str,
    data: Result<Vec<u8>, HipRpcError>,
    count: Result<i32, HipRpcError>,
    word: Result<u64, HipRpcError>,
)
    ensures
        call_ensures(response_data, (bytes,), data) ==> {
            &&& bytes@.len() < 4 ==> (data matches Err(HipRpcError::Protocol(m)) && m@
                == "malformed response"@)
            &&& bytes@.len() >= 4 && wire::i32_in(bytes@, 0) != 0 ==> (data matches Err(
                HipRpcError::Hip(e),
            ) && e == wire::i32_in(bytes@, 0))
            &&& bytes@.len() >= 4 && wire::i32_in(bytes@, 0) == 0 ==> (data matches Ok(rest)
                && rest@ == bytes@.skip(4))
        },
        call_ensures(count_in, (bytes,), count) ==> {
            &&& bytes@.len() >= 4 ==> (count matches Ok(n) && n == wire::i32_in(bytes@, 0))
            &&& bytes@.len() < 4 ==> (count matches Err(HipRpcError::Protocol(m)) && m@
                == "short DeviceGetCount reply"@)
        },
        call_ensures(word_in, (bytes, short), word) ==> {
            &&& bytes@.len() >= 8 ==> (word matches Ok(w) && w == wire::u64_in(bytes@, 0))
            &&& bytes@.len() < 8 ==> (word matches Err(HipRpcError::Protocol(m)) && m@ == short@)
        },
{
    if call_ensures(response_data, (bytes,), data) {
        wire::law_what_a_response_means(bytes@, client::shown(data));
    }
    if bytes@.len() >= 4 {
        wire::law_signed_numbers(0, bytes@);
    }
    if bytes@.len() >= 8 {
        wire::lemma_word_is_u64(bytes@, 0);
    }
}

/// `device_sectors_written` gives the seventh word of the line, as a number, and
/// nothing for a line with fewer words.
pub proof fn law_device_sectors_written(
    stat: &str,
    gaps: Seq<Seq<char>>,
    words: Seq<Seq<char>>,
    given: Option<u64>,
    zeros: Seq<char>,
    n: nat,
)
    requires
        call_ensures(device_sectors_written, (stat,), given),
        stat@ == blockstat::line(gaps, words),
        gaps.len() == words.len() + 1,
        forall|i: int| 0 <= i < gaps.len() ==> blockstat::is_gap(#[trigger] gaps[i]),
        forall|i: int| 0 < i < gaps.len() - 1 ==> (#[trigger] gaps[i]).len() > 0,
        forall|i: int| 0 <= i < words.len() ==> blockstat::is_word(#[trigger] words[i]),
        blockstat::only_zeros(zeros),
    ensures
        words.len() < 7 ==> given is None,
        words.len() >= 7 ==> given == blockstat::number(words[6]),
        words.len() >= 7 && words[6] == zeros + text::digits(n) ==> given == if n
            <= 0xffff_ffff_ffff_ffff {
            Some(n as u64)
        } else {
            None
        },
{
    blockstat::law_sectors_written_is_the_seventh_word(gaps, words);
    blockstat::law_number_is_read(zeros, n);
}

/// A read of a part that must be there asks its source once, for no more than is
/// owed and than there is room for, unless that is nothing. It counts what it
/// hands over, and takes the end of the source for an error.
pub proof fn law_exact_read<S: for<'a> Fn(Action<'a>) -> Result<Vec<u8>, IoError>>(
    part: &mut ExactStream<S>,
    capacity: usize,
    res: Result<Vec<u8>, IoError>,
)
    requires
        call_ensures(ExactStream::<S>::read, (part, capacity), res),
    ensures
        old(part).remaining == 0 || capacity == 0 ==> *final(part) == *old(part) && (res matches Ok(
            bytes,
        ) && bytes@.len() == 0),
        old(part).remaining > 0 && capacity > 0 ==> {
            let step = final(part).source.log().last();
            &&& final(part).source.log().drop_last() == old(part).source.log()
            &&& step.asked matches Asked::Read(n) && n <= old(part).remaining && n <= capacity && (n
                == old(part).remaining || n == capacity)
            &&& step.outcome matches Err(e) ==> res == Err::<Vec<u8>, IoError>(e)
            &&& step.outcome matches Ok(bytes) ==> {
                &&& bytes.len() > 0 ==> (res matches Ok(given) && given@ == bytes)
                &&& bytes.len() == 0 ==> (res matches Err(e) && e.says(
                    IoErrorKind::UnexpectedEof,
                    "short RAM stream"@,
                ))
            }
        },
        res matches Ok(bytes) ==> final(part).remaining == old(part).remaining - bytes@.len(),
        res is Err ==> final(part).remaining == old(part).remaining,
{
    capture::law_read_asks_for_what_is_owed(old(part).remaining as nat, capacity as nat);
    if old(part).remaining > 0 && capacity > 0 {
        let n = capture::ask(old(part).remaining as nat, capacity as nat);
        let step = choose|step: Step| #[trigger]
            final(part).source.ran(&old(part).source, seq![step]) && step.asked == Asked::Read(n)
                && capture::bounded_read(step.outcome, stream::seen(res));
        assert(final(part).source.ran(&old(part).source, seq![step]));
        assert(final(part).source.log().last() == step);
        assert(final(part).source.log().drop_last() =~= old(part).source.log());
        capture::law_read_hands_over_what_it_got(step.outcome, stream::seen(res));
    }
}

/// A copy of a part that must be there, from a source that is faithful to
/// `data`, writes exactly that part where it succeeds, and tells its length.
pub proof fn law_exact_copy<
    S: for<'a> Fn(Action<'a>) -> Result<Vec<u8>, IoError>,
    W: for<'a> Fn(Action<'a>) -> Result<Vec<u8>, IoError>,
>(
    part: &mut ExactStream<S>,
    sink: &mut Stream<W>,
    res: Result<u64, IoError>,
    data: Seq<u8>,
    start: int,
)
    requires
        call_ensures(ExactStream::<S>::copy_to::<W>, (part, sink), res),
        stream::faithful(
            final(part).source.log().skip(old(part).source.log().len() as int),
            data,
            start,
        ),
        0 <= start <= data.len(),
    ensures
        res matches Ok(n) ==> {
            let writes = final(sink).log().skip(old(sink).log().len() as int);
            &&& n == old(part).remaining
            &&& final(part).remaining == 0
            &&& start + n <= data.len()
            &&& stream::sent(writes) == data.subrange(start, start + n)
        },
        data.len() < start + old(part).remaining ==> res is Err,
{
    let total = old(part).remaining as nat;
    let (reads, writes) = choose|reads: Seq<Step>, writes: Seq<Step>|
        #![trigger final(part).source.ran(&old(part).source, reads), final(sink).ran(old(sink), writes)]
        final(part).source.ran(&old(part).source, reads) && final(sink).ran(old(sink), writes)
            && capture::copies(reads, writes, total, res) && final(part).remaining == old(
            part,
        ).remaining - stream::received(reads).len();
    assert(final(part).source.ran(&old(part).source, reads) && final(sink).ran(old(sink), writes));
    assert(final(part).source.log().skip(old(part).source.log().len() as int) =~= reads);
    assert(final(sink).log().skip(old(sink).log().len() as int) =~= writes);
    if let Ok(n) = res {
        capture::law_copy_takes_exactly_the_part(reads, writes, total, n, data, start);
    }
}

/// An image that was scanned and appended with the map that the scan gave is
/// unpacked, from the bytes written to the archive alone, as itself.
pub proof fn law_image_is_captured<
    S: for<'a> Fn(Action<'a>) -> Result<Vec<u8>, IoError>,
    W: for<'a> Fn(Action<'a>) -> Result<Vec<u8>, IoError>,
    R: for<'a> Fn(Action<'a>) -> Result<Vec<u8>, IoError>,
>(
    reader: &mut Stream<S>,
    archive: &mut Stream<W>,
    source: &mut Stream<R>,
    map: Vec<(u64, u64)>,
    given: &[(u64, u64)],
    data: Seq<u8>,
    start: int,
)
    requires
        data.len() <= u64::MAX,
        call_ensures(scan_extents::<S>, (reader, data.len() as u64), Ok(map)),
        given@ == map@,
        call_ensures(
            append_sparse::<W, R>,
            (archive, source, data.len() as u64, given),
            Ok(()),
        ),
        stream::faithful(final(reader).log().skip(old(reader).log().len() as int), data, 0),
        stream::faithful(final(source).log().skip(old(source).log().len() as int), data, start),
    ensures
        unpack::unpacked(
            stream::sent(final(archive).log().skip(old(archive).log().len() as int)),
        ) == data,
{
    let logical = data.len() as u64;
    let scan = choose|steps: Seq<Step>| #[trigger]
        final(reader).ran(old(reader), steps) && extents::scans(
            steps,
            logical as nat,
            Ok::<Seq<(u64, u64)>, IoError>(map@),
        );
    assert(final(reader).ran(old(reader), scan));
    assert(final(reader).log().skip(old(reader).log().len() as int) =~= scan);
    let (reads, writes) = choose|reads: Seq<Step>, writes: Seq<Step>|
        #![trigger final(source).ran(old(source), reads), final(archive).ran(old(archive), writes)]
        final(source).ran(old(source), reads) && final(archive).ran(old(archive), writes)
            && crate::archive::appends(reads, writes, logical, given@, Ok(()));
    assert(final(source).ran(old(source), reads) && final(archive).ran(old(archive), writes));
    assert(final(source).log().skip(old(source).log().len() as int) =~= reads);
    assert(final(archive).log().skip(old(archive).log().len() as int) =~= writes);
    unpack::law_captured_image_unpacks_to_itself(data, scan, map@, start, reads, writes);
}

/// A request that is dispatched to the backend over a runtime is answered by
/// that backend, and the response carries that answer.
pub proof fn law_dispatch_to_the_runtime<D: for<'a> Fn(DriverCall<'a>) -> Option<Returned>>(
    b: &mut RealHipBackend<D>,
    req: Request,
    resp: Response,
)
    requires
        call_ensures(dispatch::<RealHipBackend<D>>, (b, req), resp),
    ensures
        exists|answer: host::Answer| #[trigger]
            gpu::forwards(old(b).device(), req@, answer, final(b).device()) && resp@
                == answer.reply(),
        req matches Request::DeviceTotalMem { device } ==> {
            let returned = last_returned(*final(b));
            &&& final(b).driver().log().last().wanted == (Wanted::DeviceTotalMem { device })
            &&& returned matches Some(r) ==> r.status == 0 ==> resp.status == 0 && resp.data@.len()
                == 8 && wire::u64_in(resp.data@, 0) == r.word
        },
        req matches Request::MemcpyDtoD { dst, src, size } ==> {
            let returned = last_returned(*final(b));
            &&& final(b).driver().log().last().wanted == (Wanted::CopyWithin {
                dst,
                src,
                size,
                kind: 3,
            })
            &&& resp.data@.len() == 0
            &&& resp.status == match returned {
                Some(r) => r.status,
                None => 999,
            }
        },
{
    let before = old(b).device();
    let after = final(b).device();
    let answer = choose|answer: host::Answer| #[trigger]
        old(b).answers(req@, answer, final(b).state()) && answer.suits(req@) && resp@
            == answer.reply();
    assert(gpu::forwards(before, req@, answer, after));
    match req {
        Request::DeviceTotalMem { device } => {
            forwarding::law_memory_is_that_of_the_device(before, device, answer, after);
            if let host::Answer::Word(Ok(w)) = answer {
                wire::law_numbers_are_little_endian(w as nat);
            }
        },
        Request::MemcpyDtoD { dst, src, size } => {
            forwarding::law_copies_are_those_of_the_request(before, req@, answer, after);
        },
        _ => {},
    }
}

/// Loading tries the path that is asked for, the plain name and the usual
/// installation, in this order, until one opens, and is then over what was
/// opened, with nothing called and nothing held. Where none opens, it reports
/// the last failure.
pub proof fn law_load<
    D: for<'a> Fn(DriverCall<'a>) -> Option<Returned>,
    O: for<'a> Fn(&'a str) -> Result<D, String>,
>(asked: Option<String>, opener: &mut Opener<D, O>, res: Result<RealHipBackend<D>, String>)
    requires
        call_ensures(RealHipBackend::<D>::load::<O>, (asked, opener), res),
    ensures
        ({
            let tries = final(opener).log().skip(old(opener).log().len() as int);
            let first: int = if asked is Some {
                1
            } else {
                0
            };
            &&& old(opener).log().is_prefix_of(final(opener).log())
            &&& 1 <= tries.len() <= first + 2
            &&& asked matches Some(path) ==> tries[0].path == path@
            &&& tries.len() > first ==> tries[first].path == "libamdhip64.so"@
            &&& tries.len() > first + 1 ==> tries[first + 1].path
                == "/opt/rocm/lib/libamdhip64.so"@
            &&& forall|i: int| 0 <= i < tries.len() - 1 ==> (#[trigger] tries[i]).outcome is Err
            &&& res matches Ok(b) ==> tries.last().outcome == Ok::<D, String>(b.driver().run())
                && b.driver().log().len() == 0 && b.held() == Map::<u64, u64>::empty()
            &&& res matches Err(report) ==> tries.len() == first + 2 && (
            tries.last().outcome matches Err(e) && report@
                == "could not dlopen libamdhip64.so: /opt/rocm/lib/libamdhip64.so: "@ + e@)
        }),
{
    let paths = gpu::candidates(gpu::named_path(asked));
    let tries = choose|tries: Seq<Tried<D>>| #[trigger]
        gpu::searched(old(opener).function(), paths, tries) && {
            &&& final(opener).log() == old(opener).log() + tries
            &&& match res {
                Ok(b) => {
                    &&& tries.len() > 0
                    &&& tries.last().outcome == Ok::<D, String>(b.driver().run())
                    &&& b.driver().log() == Seq::<Called>::empty()
                    &&& b.held() == Map::<u64, u64>::empty()
                },
                Err(report) => {
                    &&& tries.len() == paths.len()
                    &&& tries.last().outcome matches Err(e) && report@
                        == "could not dlopen libamdhip64.so: "@ + paths.last() + ": "@ + e@
                },
            }
        };
    let n = old(opener).log().len() as int;
    assert(final(opener).log().skip(n) =~= tries);
    assert(old(opener).log() =~= final(opener).log().take(n));
    gpu::law_places_of_the_library(gpu::named_path(asked));
    gpu::law_library_is_searched_in_order(
        old(opener).function(),
        gpu::named_path(asked),
        tries,
    );
    if let Err(report) = res {
        reveal_strlit("could not dlopen libamdhip64.so: ");
        reveal_strlit(": ");
        reveal_strlit("/opt/rocm/lib/libamdhip64.so");
        reveal_strlit("could not dlopen libamdhip64.so: /opt/rocm/lib/libamdhip64.so: ");
        assert("could not dlopen libamdhip64.so: "@ + "/opt/rocm/lib/libamdhip64.so"@ + ": "@
            =~= "could not dlopen libamdhip64.so: /opt/rocm/lib/libamdhip64.so: "@);
        assert(paths.last() == "/opt/rocm/lib/libamdhip64.so"@);
    }
}

/// Numbers are appended lowest byte first, behind what is there, and are found
/// where they stand.
pub proof fn law_numbers_in_buffers(
    w: &mut Vec<u8>,
    small: u32,
    large: u64,
    signed: i32,
    data: &[u8],
    at: usize,
    found_small: u32,
    found_large: u64,
    found_signed: i32,
)
    ensures
        call_ensures(write_u32, (w, small), ()) ==> {
            &&& final(w)@.len() == old(w)@.len() + 4
            &&& final(w)@.take(old(w)@.len() as int) == old(w)@
            &&& wire::u32_in(final(w)@, old(w)@.len() as int) == small
        },
        call_ensures(write_u64, (w, large), ()) ==> {
            &&& final(w)@.len() == old(w)@.len() + 8
            &&& final(w)@.take(old(w)@.len() as int) == old(w)@
            &&& wire::u64_in(final(w)@, old(w)@.len() as int) == large
        },
        call_ensures(write_i32, (w, signed), ()) ==> {
            &&& final(w)@.len() == old(w)@.len() + 4
            &&& final(w)@.take(old(w)@.len() as int) == old(w)@
            &&& wire::i32_in(final(w)@, old(w)@.len() as int) == signed
        },
        at + 8 <= data@.len() ==> {
            &&& call_ensures(u32_at, (data, at), found_small) ==> found_small == wire::u32_in(
                data@,
                at as int,
            )
            &&& call_ensures(u64_at, (data, at), found_large) ==> found_large == wire::u64_in(
                data@,
                at as int,
            )
            &&& call_ensures(i32_at, (data, at), found_signed) ==> found_signed == wire::i32_in(
                data@,
                at as int,
            )
        },
{
    let n = old(w)@.len() as int;
    wire::law_numbers_are_little_endian(small as nat);
    wire::law_numbers_are_little_endian(large as nat);
    wire::law_signed_numbers(signed, seq![0u8, 0, 0, 0]);
    if call_ensures(write_u32, (w, small), ()) {
        assert(final(w)@.take(n) =~= old(w)@);
    }
    if call_ensures(write_u64, (w, large), ()) {
        assert(final(w)@.take(n) =~= old(w)@);
    }
    if call_ensures(write_i32, (w, signed), ()) {
        assert(final(w)@.take(n) =~= old(w)@);
    }
    if at + 8 <= data@.len() {
        let four = data@.subrange(at as int, at + 4);
        let eight = data@.subrange(at as int, at + 8);
        wire::law_values_of_bytes(four);
        wire::law_values_of_bytes(eight);
        assert(wire::u32_in(four, 0) == wire::u32_in(data@, at as int));
        assert(wire::u64_in(eight, 0) == wire::u64_in(data@, at as int));
    }
}

/// A number from -2147483648 to 2147483647 is written with the digits that are
/// read as it, behind a minus sign where it is negative.
pub proof fn law_decimal_text(v: i32, given: String)
    requires
        call_ensures(decimal_text, (v,), given),
    ensures
        v >= 0 ==> blockstat::number(given@) == Some(v as u64) && given@[0] != '+',
        v < 0 ==> given@[0] == '-' && blockstat::number(given@.skip(1)) == Some((-v) as u64)
            && given@[1] != '+',
        given@[0] == '0' ==> v == 0 && given@.len() == 1,
{
    text::law_decimal_is_read_back(v as int);
}

/// A chunk of zeros is not entered into the extents; any other lengthens the
/// last one where it touches it, and else is one of its own. No more than 65536
/// are entered.
pub proof fn law_extend_map(
    map: &mut Vec<(u64, u64)>,
    offset: u64,
    chunk: &[u8],
    res: Result<(), IoError>,
)
    requires
        call_ensures(extend_map, (map, offset, chunk), res),
        old(map)@.len() <= 65536,
        old(map)@.len() > 0 ==> old(map)@.last().0 + old(map)@.last().1 <= offset,
        offset + chunk@.len() <= u64::MAX,
    ensures
        ({
            let before = old(map)@;
            let after = final(map)@;
            let zero = forall|i: int| 0 <= i < chunk@.len() ==> chunk@[i] == 0;
            let touches = before.len() > 0 && before.last().0 + before.last().1 == offset;
            &&& zero ==> res is Ok && after == before
            &&& !zero && touches ==> {
                &&& res is Ok
                &&& after.len() == before.len()
                &&& after.drop_last() == before.drop_last()
                &&& after.last().0 == before.last().0
                &&& after.last().1 == before.last().1 + chunk@.len()
            }
            &&& !zero && !touches && before.len() < 65536 ==> {
                &&& res is Ok
                &&& after.drop_last() == before
                &&& after.last().0 == offset
                &&& after.last().1 == chunk@.len()
            }
            &&& !zero && !touches && before.len() == 65536 ==> after == before && (
            res matches Err(e) && e.says(IoErrorKind::Other, "prototype sparse map limit exceeded"@))
        }),
{
    let before = old(map)@;
    let grown = extents::extended(before, offset as nat, chunk@);
    if !extents::is_zero(chunk@) {
        if before.len() > 0 && before.last().0 + before.last().1 == offset {
            assert(grown.drop_last() =~= before.drop_last());
        } else {
            assert(grown.drop_last() =~= before);
        }
    }
}

/// Numbers are read from a cursor lowest byte first, and the cursor moves behind
/// them; where there are too few bytes it stays, and that is an unexpected end.
pub proof fn law_numbers_from_a_cursor(
    cur: &mut Cursor,
    small: Result<u32, IoError>,
    large: Result<u64, IoError>,
    signed: Result<i32, IoError>,
)
    ensures
        call_ensures(read_u32, (cur,), small) ==> match small {
            Ok(v) => {
                &&& old(cur).rest().len() >= 4
                &&& v == wire::u32_in(old(cur).rest(), 0)
                &&& final(cur).rest() == old(cur).rest().skip(4)
            },
            Err(e) => {
                &&& old(cur).rest().len() < 4
                &&& final(cur).rest() == old(cur).rest()
                &&& e.says(IoErrorKind::UnexpectedEof, "failed to fill whole buffer"@)
            },
        },
        call_ensures(read_u64, (cur,), large) ==> match large {
            Ok(v) => {
                &&& old(cur).rest().len() >= 8
                &&& v == wire::u64_in(old(cur).rest(), 0)
                &&& final(cur).rest() == old(cur).rest().skip(8)
            },
            Err(e) => {
                &&& old(cur).rest().len() < 8
                &&& final(cur).rest() == old(cur).rest()
                &&& e.says(IoErrorKind::UnexpectedEof, "failed to fill whole buffer"@)
            },
        },
        call_ensures(read_i32, (cur,), signed) ==> match signed {
            Ok(v) => {
                &&& old(cur).rest().len() >= 4
                &&& v == wire::i32_in(old(cur).rest(), 0)
                &&& final(cur).rest() == old(cur).rest().skip(4)
            },
            Err(e) => {
                &&& old(cur).rest().len() < 4
                &&& final(cur).rest() == old(cur).rest()
                &&& e.says(IoErrorKind::UnexpectedEof, "failed to fill whole buffer"@)
            },
        },
{
    let rest = old(cur).rest();
    if rest.len() >= 4 {
        wire::law_signed_numbers(0, rest);
        wire::law_values_of_bytes(rest.take(4));
        assert(wire::u32_in(rest.take(4), 0) == wire::u32_in(rest, 0));
    }
    if rest.len() >= 8 {
        wire::law_values_of_bytes(rest.take(8));
        assert(wire::u64_in(rest.take(8), 0) == wire::u64_in(rest, 0));
    }
}

/// The report of an error says what kind it is, and then all that is known of
/// it.
pub proof fn law_reports(e: HipRpcError, report: String)
    requires
        call_ensures(HipRpcError::to_text, (&e,), report),
    ensures
        match e {
            HipRpcError::Io(io) => report@ == "hip-rpc io: "@ + io.message@,
            HipRpcError::Hip(error) => report@ == "HIP error "@ + text::decimal(error as int),
            HipRpcError::Protocol(m) => report@ == "hip-rpc protocol: "@ + m@,
        },
{
}

/// A client for a call is the one that is there, or a new one on the stream that
/// connecting gave; without either, that is error 100 and nothing is kept.
pub proof fn law_with_client<
    S: for<'a> Fn(Action<'a>) -> Result<Vec<u8>, IoError>,
    E: Fn() -> Option<String>,
    O: Fn(Endpoint) -> Option<S>,
>(link: &mut Link<S, E, O>, res: Result<&mut Client<S>, i32>)
    requires
        call_ensures(with_client::<S, E, O>, (link,), res),
    ensures
        res matches Ok(c) ==> final(link).client == Some(*final(c)) && match old(link).client {
            Some(there) => *c == there && final(link).dialer == old(link).dialer,
            None => {
                &&& shim::connects(
                    old(link).dialer,
                    final(link).dialer,
                    Ok(c.stream().transport()),
                )
                &&& c.stream().log().len() == 0
            },
        },
        res matches Err(status) ==> {
            &&& status == 100
            &&& old(link).client is None
            &&& final(link).client is None
            &&& shim::connects(old(link).dialer, final(link).dialer, Err(100))
        },
{
    if let Err(status) = res {
        shim::law_unreachable_host_is_no_device(*old(link), *final(link), status);
    }
}

} // verus!
