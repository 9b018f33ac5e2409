//! The HIP runtime API of the guest: its entry points, each of which is one
//! call over the wire to the host.
//!
//! The connection is made when the first call needs it. Where it goes is chosen
//! by a text:
//!   * nothing, or `vsock`: AF_VSOCK to the host
//!   * `tcp:HOST:PORT`: TCP
//!   * `unix:PATH`: AF_UNIX

use crate::client;
use crate::client::{Client, HipRpcError};
use crate::dialer;
use crate::dialer::{Dialed, Dialer, Endpoint, Place};
use crate::gpu::{
    HIP_MEMCPY_DEVICE_TO_DEVICE, HIP_MEMCPY_DEVICE_TO_HOST, HIP_MEMCPY_HOST_TO_DEVICE,
};
use crate::host::Answer;
use crate::proto::Call;
use crate::rpc;
use crate::stream;
use crate::stream::{Action, IoError, Step};
use crate::wire;
use vstd::prelude::*;
use vstd::slice::{slice_subrange, slice_to_vec};

verus! {

/// `hipSuccess`
pub const HIP_SUCCESS: i32 = 0;

/// `hipErrorInvalidValue`
pub const HIP_ERROR_INVALID_VALUE: i32 = 1;

/// `hipErrorOutOfMemory`
pub const HIP_ERROR_OUT_OF_MEMORY: i32 = 2;

/// `hipErrorNotInitialized`
pub const HIP_ERROR_NOT_INITIALIZED: i32 = 3;

/// `hipErrorNoDevice`
pub const HIP_ERROR_NO_DEVICE: i32 = 100;

/// `hipErrorNotSupported`
pub const HIP_ERROR_NOT_SUPPORTED: i32 = 801;

/// The host, as seen from a guest.
pub const HOST_CID: u32 = 2;

/// The port that the host reserves for HIP.
pub const HIP_PORT: u32 = 7001;

/// The `hipError_t` that reports `e`.
pub open spec fn code(e: HipRpcError) -> i32 {
    match e {
        HipRpcError::Hip(code) => code,
        HipRpcError::Io(_) => HIP_ERROR_NO_DEVICE,
        HipRpcError::Protocol(_) => HIP_ERROR_NOT_SUPPORTED,
    }
}

/// The `hipError_t` that reports `e`.
pub fn hip_err(e: HipRpcError) -> (status: i32)
    ensures
        status == code(e),
{
    match e {
        HipRpcError::Hip(code) => code,
        HipRpcError::Io(_) => HIP_ERROR_NO_DEVICE,
        HipRpcError::Protocol(_) => HIP_ERROR_NOT_SUPPORTED,
    }
}

/// The `hipError_t` that reports how a call ended.
pub open spec fn status_of<T>(res: Result<T, HipRpcError>) -> i32 {
    match res {
        Ok(_) => HIP_SUCCESS,
        Err(e) => code(e),
    }
}

/// The place that `spec` chooses.
pub open spec fn chosen(spec: Seq<char>) -> Place {
    if "tcp:"@.is_prefix_of(spec) {
        Place::Tcp(spec.skip(4))
    } else if "unix:"@.is_prefix_of(spec) {
        Place::Unix(spec.skip(5))
    } else {
        Place::Vsock { cid: HOST_CID, port: HIP_PORT }
    }
}

/// What follows `prefix` in `text`, where `text` starts with it.
fn after_prefix(text: &str, prefix: &str) -> (rest: Option<String>)
    ensures
        match rest {
            Some(rest) => prefix@.is_prefix_of(text@) && rest@ == text@.skip(prefix@.len() as int),
            None => !prefix@.is_prefix_of(text@),
        },
{
    let n: usize = prefix.unicode_len();
    let len: usize = text.unicode_len();
    if len < n {
        return None;
    }
    let mut i: usize = 0;
    while i < n
        invariant
            i <= n <= len,
            n == prefix@.len(),
            len == text@.len(),
            forall|k: int| 0 <= k < i ==> prefix@[k] == text@[k],
        decreases n - i,
    {
        if prefix.get_char(i) != text.get_char(i) {
            assert(prefix@[i as int] != text@.take(n as int)[i as int]);
            return None;
        }
        i = i + 1;
    }
    assert(prefix@ =~= text@.take(n as int));
    assert(text@.subrange(n as int, len as int) =~= text@.skip(n as int));
    Some(text.substring_char(n, len).to_owned())
}

/// The endpoint that `spec` chooses.
pub fn endpoint(spec: &str) -> (e: Endpoint)
    ensures
        e@ == chosen(spec@),
{
    proof {
        reveal_strlit("tcp:");
        reveal_strlit("unix:");
    }
    if let Some(address) = after_prefix(spec, "tcp:") {
        return Endpoint::Tcp(address);
    }
    if let Some(path) = after_prefix(spec, "unix:") {
        return Endpoint::Unix(path);
    }
    Endpoint::Vsock { cid: HOST_CID, port: HIP_PORT }
}

/// The text of a choice, empty where none was made.
pub open spec fn text_or_none(choice: Option<Seq<char>>) -> Seq<char> {
    match choice {
        Some(text) => text,
        None => ""@,
    }
}

/// One attempt to connect: the choice is looked up, and the chosen place is
/// opened.
pub open spec fn attempt<S>(choice: Option<Seq<char>>, opened: Option<S>) -> Seq<Dialed<S>> {
    seq![Dialed::Chosen(choice), Dialed::Opened(chosen(text_or_none(choice)), opened)]
}

/// Whether `after` came from `before` by connecting, with this outcome: the
/// choice is looked up once, the chosen place, and no other, is opened once, and
/// a failure to do so means that there is no device.
pub open spec fn connects<
    S: for<'a> Fn(Action<'a>) -> Result<Vec<u8>, IoError>,
    E: Fn() -> Option<String>,
    O: Fn(Endpoint) -> Option<S>,
>(before: Dialer<S, E, O>, after: Dialer<S, E, O>, outcome: Result<S, i32>) -> bool {
    &&& after.functions() == before.functions()
    &&& exists|choice: Option<Seq<char>>, opened: Option<S>|
        {
            let place = chosen(text_or_none(choice));
            &&& dialer::may_choose(before.functions().0, choice)
            &&& dialer::may_open(before.functions().1, place, opened)
            &&& after.log() == before.log() + #[trigger] attempt(choice, opened)
            &&& outcome == match opened {
                Some(s) => Ok::<S, i32>(s),
                None => Err::<S, i32>(HIP_ERROR_NO_DEVICE),
            }
        }
}

/// Connects to the host.
pub fn connect<
    S: for<'a> Fn(Action<'a>) -> Result<Vec<u8>, IoError>,
    E: Fn() -> Option<String>,
    O: Fn(Endpoint) -> Option<S>,
>(dialer: &mut Dialer<S, E, O>) -> (res: Result<S, i32>)
    ensures
        connects(*old(dialer), *final(dialer), res),
        res matches Ok(s) ==> stream::is_transport(s),
{
    let choice = dialer.choice();
    let place = match &choice {
        Some(text) => endpoint(text.as_str()),
        None => endpoint(""),
    };
    let opened = dialer.open(place);
    proof {
        let told = dialer::told(choice);
        assert(dialer.log() =~= old(dialer).log() + attempt(told, opened));
    }
    match opened {
        Some(s) => Ok(s),
        None => Err(HIP_ERROR_NO_DEVICE),
    }
}

/// The state of the runtime: the client, once there is one, and the way to get
/// one.
#[verifier::reject_recursive_types(S)]
pub struct Link<
    S: for<'a> Fn(Action<'a>) -> Result<Vec<u8>, IoError>,
    E: Fn() -> Option<String>,
    O: Fn(Endpoint) -> Option<S>,
> {
    pub client: Option<Client<S>>,
    pub dialer: Dialer<S, E, O>,
}

impl<
    S: for<'a> Fn(Action<'a>) -> Result<Vec<u8>, IoError>,
    E: Fn() -> Option<String>,
    O: Fn(Endpoint) -> Option<S>,
> Link<S, E, O> {
    /// The client, if there is one, is in order.
    pub open spec fn wf(&self) -> bool {
        self.client matches Some(c) ==> c.wf()
    }

    /// A link that is not connected yet.
    pub fn new(dialer: Dialer<S, E, O>) -> (link: Self)
        ensures
            link.wf(),
            link.client is None,
            link.dialer == dialer,
    {
        Link { client: None, dialer }
    }

    /// The client of a call on `before`, whose dialer then is that of `self`, is
    /// `start`: the one that is there, and nothing is dialed, or else a new one.
    pub open spec fn reached(&self, before: &Self, start: Client<S>) -> bool {
        match before.client {
            Some(c) => start == c && self.dialer == before.dialer,
            None => {
                &&& connects(before.dialer, self.dialer, Ok(start.stream().transport()))
                &&& start.stream().log() == Seq::<Step>::empty()
            },
        }
    }

    /// `self` came from `before` by one round-trip for `call` that ended in
    /// `data`, on the client that is there or a new one.
    pub open spec fn asked(
        &self,
        before: &Self,
        call: Call,
        data: Result<Seq<u8>, HipRpcError>,
    ) -> bool {
        self.client matches Some(end) && exists|start: Client<S>| #[trigger]
            self.reached(before, start) && end.called(&start, call, data)
    }

    /// `self` came from `before` by failing to connect, for the reason `status`.
    pub open spec fn refused(&self, before: &Self, status: i32) -> bool {
        &&& before.client is None
        &&& self.client is None
        &&& connects(before.dialer, self.dialer, Err(status))
    }

    /// `self` came from `before` by a call that has no result but its status,
    /// and ended in `status`.
    pub open spec fn ended(&self, before: &Self, call: Call, status: i32) -> bool {
        ||| self.refused(before, status)
        ||| exists|data: Result<Seq<u8>, HipRpcError>| #[trigger]
            self.asked(before, call, data) && status == status_of(data)
    }

    /// `self` came from `before` by asking the host for the device count, and
    /// `res` is what came of it.
    pub open spec fn got_count(&self, before: &Self, res: Result<i32, HipRpcError>) -> bool {
        exists|data: Result<Seq<u8>, HipRpcError>| #[trigger]
            self.asked(before, Call::DeviceGetCount, data) && client::as_count(data, res)
    }

    /// `self` came from `before` by asking the host `call`, and `res` is the
    /// number that came of it.
    pub open spec fn got_word(
        &self,
        before: &Self,
        call: Call,
        short: Seq<char>,
        res: Result<u64, HipRpcError>,
    ) -> bool {
        exists|data: Result<Seq<u8>, HipRpcError>| #[trigger]
            self.asked(before, call, data) && client::as_word(data, short, res)
    }

    /// `self` came from `before` by asking the host for the name of `device`,
    /// and `res` is what came of it.
    pub open spec fn got_name(
        &self,
        before: &Self,
        device: i32,
        res: Result<String, HipRpcError>,
    ) -> bool {
        exists|data: Result<Seq<u8>, HipRpcError>| #[trigger]
            self.asked(before, Call::DeviceGetName { device }, data) && client::as_text(data, res)
    }
}

/// What a target that held `before` holds after a call: its result, if it has
/// one.
pub open spec fn kept_or<T>(res: Result<T, HipRpcError>, before: T) -> T {
    match res {
        Ok(value) => value,
        Err(_) => before,
    }
}

/// The client to make a call with. Where there is none yet, the host is
/// connected to once; where there is one, nothing is dialed.
pub fn with_client<
    S: for<'a> Fn(Action<'a>) -> Result<Vec<u8>, IoError>,
    E: Fn() -> Option<String>,
    O: Fn(Endpoint) -> Option<S>,
>(link: &mut Link<S, E, O>) -> (res: Result<&mut Client<S>, i32>)
    requires
        old(link).wf(),
    ensures
        match res {
            Ok(c) => {
                &&& c.wf()
                &&& final(link).reached(old(link), *c)
                &&& final(link).client == Some(*final(c))
            },
            Err(status) => final(link).refused(old(link), status),
        },
{
    if link.client.is_none() {
        let stream = match connect(&mut link.dialer) {
            Ok(stream) => stream,
            Err(status) => return Err(status),
        };
        link.client = Some(Client::new(stream));
    }
    match &mut link.client {
        Some(c) => Ok(c),
        None => Err(HIP_ERROR_NO_DEVICE),
    }
}

/// Initializes the runtime. The flags are not used.
#[allow(non_snake_case)]
pub fn hipInit<
    S: for<'a> Fn(Action<'a>) -> Result<Vec<u8>, IoError>,
    E: Fn() -> Option<String>,
    O: Fn(Endpoint) -> Option<S>,
>(link: &mut Link<S, E, O>, _flags: i32) -> (status: i32)
    requires
        old(link).wf(),
    ensures
        final(link).wf(),
        final(link).ended(old(link), Call::Init, status),
{
    let c = match with_client(link) {
        Ok(c) => c,
        Err(status) => return status,
    };
    let ghost start = *c;
    let res = c.init();
    proof {
        let end = *c;
        let data = choose|data: Result<Seq<u8>, HipRpcError>| #[trigger]
            end.called(&start, Call::Init, data) && client::as_unit(data, res);
        assert(link.asked(old(link), Call::Init, data));
    }
    match res {
        Ok(()) => HIP_SUCCESS,
        Err(e) => hip_err(e),
    }
}

/// The number of devices.
#[allow(non_snake_case)]
pub fn hipGetDeviceCount<
    S: for<'a> Fn(Action<'a>) -> Result<Vec<u8>, IoError>,
    E: Fn() -> Option<String>,
    O: Fn(Endpoint) -> Option<S>,
>(link: &mut Link<S, E, O>, count: Option<&mut i32>) -> (status: i32)
    requires
        old(link).wf(),
    ensures
        final(link).wf(),
        count is None ==> status == HIP_ERROR_INVALID_VALUE && *final(link) == *old(link),
        count matches Some(p) ==> {
            ||| final(link).refused(old(link), status) && *final(p) == *p
            ||| exists|res: Result<i32, HipRpcError>| #[trigger]
                final(link).got_count(old(link), res) && status == status_of(res)
                    && *final(p) == kept_or(res, *p)
        },
{
    let target = match count {
        Some(target) => target,
        None => return HIP_ERROR_INVALID_VALUE,
    };
    let c = match with_client(link) {
        Ok(c) => c,
        Err(status) => return status,
    };
    let ghost start = *c;
    let res = c.device_get_count();
    proof {
        let end = *c;
        let data = choose|data: Result<Seq<u8>, HipRpcError>| #[trigger]
            end.called(&start, Call::DeviceGetCount, data) && client::as_count(data, res);
        assert(link.asked(old(link), Call::DeviceGetCount, data));
        assert(link.got_count(old(link), res));
    }
    match res {
        Ok(value) => {
            *target = value;
            HIP_SUCCESS
        },
        Err(e) => hip_err(e),
    }
}

/// The memory of a device in bytes.
#[allow(non_snake_case)]
pub fn hipDeviceTotalMem<
    S: for<'a> Fn(Action<'a>) -> Result<Vec<u8>, IoError>,
    E: Fn() -> Option<String>,
    O: Fn(Endpoint) -> Option<S>,
>(link: &mut Link<S, E, O>, bytes: Option<&mut u64>, device: i32) -> (status: i32)
    requires
        old(link).wf(),
    ensures
        final(link).wf(),
        bytes is None ==> status == HIP_ERROR_INVALID_VALUE && *final(link) == *old(link),
        bytes matches Some(p) ==> {
            ||| final(link).refused(old(link), status) && *final(p) == *p
            ||| exists|res: Result<u64, HipRpcError>| #[trigger]
                final(link).got_word(
                    old(link),
                    Call::DeviceTotalMem { device },
                    "short DeviceTotalMem reply"@,
                    res,
                ) && status == status_of(res) && *final(p) == kept_or(res, *p)
        },
{
    let target = match bytes {
        Some(target) => target,
        None => return HIP_ERROR_INVALID_VALUE,
    };
    let c = match with_client(link) {
        Ok(c) => c,
        Err(status) => return status,
    };
    let ghost start = *c;
    let res = c.device_total_mem(device);
    proof {
        let end = *c;
        let data = choose|data: Result<Seq<u8>, HipRpcError>| #[trigger]
            end.called(&start, Call::DeviceTotalMem { device }, data) && client::as_word(
                data,
                "short DeviceTotalMem reply"@,
                res,
            );
        assert(link.asked(old(link), Call::DeviceTotalMem { device }, data));
        assert(link.got_word(
            old(link),
            Call::DeviceTotalMem { device },
            "short DeviceTotalMem reply"@,
            res,
        ));
    }
    match res {
        Ok(value) => {
            *target = value;
            HIP_SUCCESS
        },
        Err(e) => hip_err(e),
    }
}

/// Allocates device memory.
#[allow(non_snake_case)]
pub fn hipMalloc<
    S: for<'a> Fn(Action<'a>) -> Result<Vec<u8>, IoError>,
    E: Fn() -> Option<String>,
    O: Fn(Endpoint) -> Option<S>,
>(link: &mut Link<S, E, O>, ptr: Option<&mut u64>, size: u64) -> (status: i32)
    requires
        old(link).wf(),
    ensures
        final(link).wf(),
        ptr is None ==> status == HIP_ERROR_INVALID_VALUE && *final(link) == *old(link),
        ptr matches Some(p) ==> {
            ||| final(link).refused(old(link), status) && *final(p) == *p
            ||| exists|res: Result<u64, HipRpcError>| #[trigger]
                final(link).got_word(
                    old(link),
                    Call::MemAlloc { size },
                    "short MemAlloc reply"@,
                    res,
                ) && status == status_of(res) && *final(p) == kept_or(res, *p)
        },
{
    let target = match ptr {
        Some(target) => target,
        None => return HIP_ERROR_INVALID_VALUE,
    };
    let c = match with_client(link) {
        Ok(c) => c,
        Err(status) => return status,
    };
    let ghost start = *c;
    let res = c.mem_alloc(size);
    proof {
        let end = *c;
        let data = choose|data: Result<Seq<u8>, HipRpcError>| #[trigger]
            end.called(&start, Call::MemAlloc { size }, data) && client::as_word(
                data,
                "short MemAlloc reply"@,
                res,
            );
        assert(link.asked(old(link), Call::MemAlloc { size }, data));
        assert(link.got_word(
            old(link),
            Call::MemAlloc { size },
            "short MemAlloc reply"@,
            res,
        ));
    }
    match res {
        Ok(value) => {
            *target = value;
            HIP_SUCCESS
        },
        Err(e) => hip_err(e),
    }
}

/// Frees device memory.
#[allow(non_snake_case)]
pub fn hipFree<
    S: for<'a> Fn(Action<'a>) -> Result<Vec<u8>, IoError>,
    E: Fn() -> Option<String>,
    O: Fn(Endpoint) -> Option<S>,
>(link: &mut Link<S, E, O>, ptr: u64) -> (status: i32)
    requires
        old(link).wf(),
    ensures
        final(link).wf(),
        final(link).ended(old(link), Call::MemFree { dptr: ptr }, status),
{
    let c = match with_client(link) {
        Ok(c) => c,
        Err(status) => return status,
    };
    let ghost start = *c;
    let res = c.mem_free(ptr);
    proof {
        let end = *c;
        let data = choose|data: Result<Seq<u8>, HipRpcError>| #[trigger]
            end.called(&start, Call::MemFree { dptr: ptr }, data) && client::as_unit(data, res);
        assert(link.asked(old(link), Call::MemFree { dptr: ptr }, data));
    }
    match res {
        Ok(()) => HIP_SUCCESS,
        Err(e) => hip_err(e),
    }
}

/// Waits until the device is idle.
#[allow(non_snake_case)]
pub fn hipDeviceSynchronize<
    S: for<'a> Fn(Action<'a>) -> Result<Vec<u8>, IoError>,
    E: Fn() -> Option<String>,
    O: Fn(Endpoint) -> Option<S>,
>(link: &mut Link<S, E, O>) -> (status: i32)
    requires
        old(link).wf(),
    ensures
        final(link).wf(),
        final(link).ended(old(link), Call::DeviceSynchronize, status),
{
    let c = match with_client(link) {
        Ok(c) => c,
        Err(status) => return status,
    };
    let ghost start = *c;
    let res = c.device_synchronize();
    proof {
        let end = *c;
        let data = choose|data: Result<Seq<u8>, HipRpcError>| #[trigger]
            end.called(&start, Call::DeviceSynchronize, data) && client::as_unit(data, res);
        assert(link.asked(old(link), Call::DeviceSynchronize, data));
    }
    match res {
        Ok(()) => HIP_SUCCESS,
        Err(e) => hip_err(e),
    }
}

/// As much of `text` as fits in `len` bytes together with the zero byte behind
/// it.
pub open spec fn c_name(text: Seq<char>, len: i32) -> Seq<u8> {
    let bytes = vstd::utf8::encode_utf8(text);
    if bytes.len() < len {
        bytes.push(0)
    } else {
        bytes.take(len - 1).push(0)
    }
}

/// As much of `text` as fits in `len` bytes together with the zero byte behind
/// it.
fn name_bytes(text: &str, len: i32) -> (bytes: Vec<u8>)
    requires
        len > 0,
    ensures
        bytes@ == c_name(text@, len),
{
    let all = text.as_bytes();
    let room: usize = (len - 1) as usize;
    let n: usize = if all.len() < room {
        all.len()
    } else {
        room
    };
    let mut bytes = slice_to_vec(slice_subrange(all, 0, n));
    bytes.push(0);
    assert(bytes@ =~= c_name(text@, len));
    bytes
}

/// The name of a device, cut to what fits in `len` bytes. `name` receives the
/// bytes to store.
#[allow(non_snake_case)]
pub fn hipDeviceGetName<
    S: for<'a> Fn(Action<'a>) -> Result<Vec<u8>, IoError>,
    E: Fn() -> Option<String>,
    O: Fn(Endpoint) -> Option<S>,
>(
    link: &mut Link<S, E, O>,
    name: Option<&mut Vec<u8>>,
    len: i32,
    device: i32,
) -> (status: i32)
    requires
        old(link).wf(),
    ensures
        final(link).wf(),
        name is None || len <= 0 ==> status == HIP_ERROR_INVALID_VALUE && *final(link) == *old(
            link,
        ),
        name matches Some(p) ==> if len <= 0 {
            *final(p) == *p
        } else {
            ||| final(link).refused(old(link), status) && *final(p) == *p
            ||| exists|res: Result<String, HipRpcError>| #[trigger]
                final(link).got_name(old(link), device, res) && status == status_of(
                    res,
                ) && match res {
                    Ok(text) => final(p)@ == c_name(text@, len),
                    Err(_) => *final(p) == *p,
                }
        },
{
    let target = match name {
        Some(target) => target,
        None => return HIP_ERROR_INVALID_VALUE,
    };
    if len <= 0 {
        return HIP_ERROR_INVALID_VALUE;
    }
    let c = match with_client(link) {
        Ok(c) => c,
        Err(status) => return status,
    };
    let ghost start = *c;
    let res = c.device_get_name(device);
    proof {
        let end = *c;
        let data = choose|data: Result<Seq<u8>, HipRpcError>| #[trigger]
            end.called(&start, Call::DeviceGetName { device }, data) && client::as_text(data, res);
        assert(link.asked(old(link), Call::DeviceGetName { device }, data));
        assert(link.got_name(old(link), device, res));
    }
    match res {
        Ok(text) => {
            *target = name_bytes(text.as_str(), len);
            HIP_SUCCESS
        },
        Err(e) => hip_err(e),
    }
}

/// Copies `size_bytes` bytes to, from or within device memory. `load` fetches
/// guest memory, by address and size, once where it is copied from; `stored`
/// receives the bytes to store at `dst` in guest memory.
#[allow(non_snake_case)]
pub fn hipMemcpy<
    S: for<'a> Fn(Action<'a>) -> Result<Vec<u8>, IoError>,
    E: Fn() -> Option<String>,
    O: Fn(Endpoint) -> Option<S>,
    L: FnOnce(u64, u64) -> Vec<u8>,
>(
    link: &mut Link<S, E, O>,
    load: L,
    stored: &mut Option<Vec<u8>>,
    dst: u64,
    src: u64,
    size_bytes: u64,
    kind: i32,
) -> (status: i32)
    requires
        old(link).wf(),
        kind == HIP_MEMCPY_HOST_TO_DEVICE ==> call_requires(load, (src, size_bytes)),
    ensures
        final(link).wf(),
        kind != HIP_MEMCPY_DEVICE_TO_HOST ==> *final(stored) == *old(stored),
        if kind == HIP_MEMCPY_HOST_TO_DEVICE {
            exists|loaded: Vec<u8>| #[trigger]
                call_ensures(load, (src, size_bytes), loaded) && final(link).ended(
                    old(link),
                    Call::MemcpyHtoD { dptr: dst, data: loaded@ },
                    status,
                )
        } else if kind == HIP_MEMCPY_DEVICE_TO_HOST {
            ||| final(link).refused(old(link), status) && *final(stored) == *old(stored)
            ||| exists|data: Result<Seq<u8>, HipRpcError>| #[trigger]
                final(link).asked(
                    old(link),
                    Call::MemcpyDtoH { dptr: src, size: size_bytes },
                    data,
                ) && status == status_of(data) && match data {
                    Ok(bytes) => *final(stored) matches Some(v) && v@ == bytes,
                    Err(_) => *final(stored) == *old(stored),
                }
        } else if kind == HIP_MEMCPY_DEVICE_TO_DEVICE {
            final(link).ended(
                old(link),
                Call::MemcpyDtoD { dst, src, size: size_bytes },
                status,
            )
        } else {
            status == HIP_ERROR_NOT_SUPPORTED && *final(link) == *old(link)
        },
{
    match kind {
        HIP_MEMCPY_HOST_TO_DEVICE => {
            let loaded = load(src, size_bytes);
            let c = match with_client(link) {
                Ok(c) => c,
                Err(status) => return status,
            };
            let ghost start = *c;
            let ghost call = Call::MemcpyHtoD { dptr: dst, data: loaded@ };
            let res = c.memcpy_h2d(dst, loaded.as_slice());
            proof {
                let end = *c;
                let data = choose|data: Result<Seq<u8>, HipRpcError>| #[trigger]
                    end.called(&start, call, data) && client::as_unit(data, res);
                assert(link.asked(old(link), call, data));
            }
            match res {
                Ok(()) => HIP_SUCCESS,
                Err(e) => hip_err(e),
            }
        },
        HIP_MEMCPY_DEVICE_TO_HOST => {
            let c = match with_client(link) {
                Ok(c) => c,
                Err(status) => return status,
            };
            let ghost start = *c;
            let ghost call = Call::MemcpyDtoH { dptr: src, size: size_bytes };
            let res = c.memcpy_d2h(src, size_bytes);
            proof {
                let end = *c;
                assert(link.asked(old(link), call, client::shown(res)));
            }
            match res {
                Ok(data) => {
                    *stored = Some(data);
                    HIP_SUCCESS
                },
                Err(e) => hip_err(e),
            }
        },
        HIP_MEMCPY_DEVICE_TO_DEVICE => {
            let c = match with_client(link) {
                Ok(c) => c,
                Err(status) => return status,
            };
            let ghost start = *c;
            let ghost call = Call::MemcpyDtoD { dst, src, size: size_bytes };
            let res = c.memcpy_d2d(dst, src, size_bytes);
            proof {
                let end = *c;
                let data = choose|data: Result<Seq<u8>, HipRpcError>| #[trigger]
                    end.called(&start, call, data) && client::as_unit(data, res);
                assert(link.asked(old(link), call, data));
            }
            match res {
                Ok(()) => HIP_SUCCESS,
                Err(e) => hip_err(e),
            }
        },
        _ => HIP_ERROR_NOT_SUPPORTED,
    }
}

/// The text of an error.
pub open spec fn error_text(error: i32) -> Seq<char> {
    match error {
        HIP_SUCCESS => "hipSuccess"@,
        HIP_ERROR_INVALID_VALUE => "hipErrorInvalidValue"@,
        HIP_ERROR_OUT_OF_MEMORY => "hipErrorOutOfMemory"@,
        HIP_ERROR_NOT_INITIALIZED => "hipErrorNotInitialized"@,
        HIP_ERROR_NO_DEVICE => "hipErrorNoDevice"@,
        HIP_ERROR_NOT_SUPPORTED =>
            "hipErrorNotSupported (smolvm-hip-shim: not yet implemented)"@,
        _ => "hipErrorUnknown"@,
    }
}

/// The text of an error, as a C string: a zero byte ends it.
#[allow(non_snake_case)]
pub fn hipGetErrorString(error: i32) -> (text: &'static str)
    ensures
        text@ == error_text(error).push('\0'),
{
    proof {
        reveal_strlit("hipSuccess");
        reveal_strlit("hipSuccess\0");
        reveal_strlit("hipErrorInvalidValue");
        reveal_strlit("hipErrorInvalidValue\0");
        reveal_strlit("hipErrorOutOfMemory");
        reveal_strlit("hipErrorOutOfMemory\0");
        reveal_strlit("hipErrorNotInitialized");
        reveal_strlit("hipErrorNotInitialized\0");
        reveal_strlit("hipErrorNoDevice");
        reveal_strlit("hipErrorNoDevice\0");
        reveal_strlit("hipErrorNotSupported (smolvm-hip-shim: not yet implemented)");
        reveal_strlit("hipErrorNotSupported (smolvm-hip-shim: not yet implemented)\0");
        reveal_strlit("hipErrorUnknown");
        reveal_strlit("hipErrorUnknown\0");
    }
    let text = match error {
        HIP_SUCCESS => "hipSuccess\0",
        HIP_ERROR_INVALID_VALUE => "hipErrorInvalidValue\0",
        HIP_ERROR_OUT_OF_MEMORY => "hipErrorOutOfMemory\0",
        HIP_ERROR_NOT_INITIALIZED => "hipErrorNotInitialized\0",
        HIP_ERROR_NO_DEVICE => "hipErrorNoDevice\0",
        HIP_ERROR_NOT_SUPPORTED =>
            "hipErrorNotSupported (smolvm-hip-shim: not yet implemented)\0",
        _ => "hipErrorUnknown\0",
    };
    assert(text@ =~= error_text(error).push('\0'));
    text
}

/// The status of a call is the one that the host answered with: its error, or
/// success.
pub proof fn law_status_is_that_of_the_host(answer: Answer, data: Result<Seq<u8>, HipRpcError>)
    requires
        client::means(answer.reply().payload(), data),
    ensures
        status_of(data) == match answer.error() {
            Some(e) => e,
            None => HIP_SUCCESS,
        },
{
    rpc::law_answer_reaches_caller(answer, data);
}

/// Success is reported exactly where the round-trip succeeded, for whatever
/// reason it may have failed.
pub proof fn law_success_is_reported_truly(
    steps: Seq<Step>,
    call: Call,
    data: Result<Seq<u8>, HipRpcError>,
)
    requires
        client::exchanged(steps, call, data),
    ensures
        status_of(data) == HIP_SUCCESS <==> data is Ok,
{
}

/// A device name never takes more than the room that there is, and is always
/// ended by a zero byte. No more of it is cut than has to be: one that leaves
/// room for the zero byte is stored whole, and one that does not fills the room.
pub proof fn law_name_fits(text: Seq<char>, len: i32)
    requires
        len > 0,
    ensures
        0 < c_name(text, len).len() <= len,
        c_name(text, len).last() == 0,
        c_name(text, len).drop_last().is_prefix_of(vstd::utf8::encode_utf8(text)),
        vstd::utf8::encode_utf8(text).len() <= len - 1 ==> c_name(text, len).drop_last()
            == vstd::utf8::encode_utf8(text),
        vstd::utf8::encode_utf8(text).len() >= len - 1 ==> c_name(text, len).len() == len,
{
    let bytes = vstd::utf8::encode_utf8(text);
    let kept = c_name(text, len).drop_last();
    assert(kept =~= bytes.take(kept.len() as int));
}

/// A host that cannot be reached is reported as a missing device. Connecting
/// was tried once, and the next call will try again.
pub proof fn law_unreachable_host_is_no_device<
    S: for<'a> Fn(Action<'a>) -> Result<Vec<u8>, IoError>,
    E: Fn() -> Option<String>,
    O: Fn(Endpoint) -> Option<S>,
>(before: Link<S, E, O>, after: Link<S, E, O>, status: i32)
    requires
        after.refused(&before, status),
    ensures
        status == HIP_ERROR_NO_DEVICE,
        after.client is None,
        after.dialer.log().len() == before.dialer.log().len() + 2,
        after.dialer.log().last() matches Dialed::Opened(_, None),
{
}

/// A call without a connection connects once, to the chosen place, and keeps
/// the connection that it got, whatever becomes of the call itself.
pub proof fn law_first_call_connects_once<
    S: for<'a> Fn(Action<'a>) -> Result<Vec<u8>, IoError>,
    E: Fn() -> Option<String>,
    O: Fn(Endpoint) -> Option<S>,
>(
    before: Link<S, E, O>,
    after: Link<S, E, O>,
    call: Call,
    data: Result<Seq<u8>, HipRpcError>,
)
    requires
        before.client is None,
        after.asked(&before, call, data),
    ensures
        exists|choice: Option<Seq<char>>, s: S|
            after.dialer.log() == before.dialer.log() + #[trigger] attempt(choice, Some(s))
                && (after.client matches Some(c) && c.stream().transport() == s),
{
    let end = after.client->Some_0;
    let start = choose|start: Client<S>| #[trigger]
        after.reached(&before, start) && end.called(&start, call, data);
    assert(end.called(&start, call, data));
    let s = start.stream().transport();
    let (choice, opened) = choose|choice: Option<Seq<char>>, opened: Option<S>|
        {
            &&& after.dialer.log() == before.dialer.log() + #[trigger] attempt(choice, opened)
            &&& Ok::<S, i32>(s) == match opened {
                Some(s) => Ok::<S, i32>(s),
                None => Err::<S, i32>(HIP_ERROR_NO_DEVICE),
            }
        };
    assert(opened == Some(s));
}

/// A connection that is held is used: nothing is dialed, and the stream stays
/// the same one, also where calls on it failed.
pub proof fn law_connection_is_kept<
    S: for<'a> Fn(Action<'a>) -> Result<Vec<u8>, IoError>,
    E: Fn() -> Option<String>,
    O: Fn(Endpoint) -> Option<S>,
>(links: Seq<Link<S, E, O>>, calls: Seq<Call>, ends: Seq<Result<Seq<u8>, HipRpcError>>)
    requires
        links.len() == calls.len() + 1,
        ends.len() == calls.len(),
        links[0].client is Some,
        forall|i: int|
            0 <= i < calls.len() ==> links[i + 1].asked(&links[i], #[trigger] calls[i], ends[i])
                || exists|status: i32| #[trigger] links[i + 1].refused(&links[i], status),
    ensures
        links.last().dialer == links[0].dialer,
        links.last().client matches Some(c) && c.stream().transport()
            == links[0].client->Some_0.stream().transport()
            && links[0].client->Some_0.stream().log().is_prefix_of(c.stream().log()),
    decreases calls.len(),
{
    let first = links[0].client->Some_0;
    if calls.len() == 0 {
        assert(first.stream().log() =~= first.stream().log().take(
            first.stream().log().len() as int,
        ));
    } else {
        let n = calls.len() - 1;
        let before = links.drop_last();
        assert forall|i: int| 0 <= i < n implies before[i + 1].asked(
            &before[i],
            #[trigger] calls.drop_last()[i],
            ends.drop_last()[i],
        ) || exists|status: i32| #[trigger] before[i + 1].refused(&before[i], status) by {
            assert(calls.drop_last()[i] == calls[i]);
        }
        law_connection_is_kept(before, calls.drop_last(), ends.drop_last());
        let middle = links[n].client->Some_0;
        assert(links[n + 1].asked(&links[n], calls[n], ends[n]));
        let end = links[n + 1].client->Some_0;
        assert(end.called(&middle, calls[n], ends[n]));
        let steps = choose|steps: Seq<Step>| #[trigger]
            end.stream().ran(&middle.stream(), steps) && client::exchanged(
                steps,
                calls[n],
                ends[n],
            );
        assert(end.stream().ran(&middle.stream(), steps));
        let old_log = first.stream().log();
        assert(old_log =~= end.stream().log().take(old_log.len() as int)) by {
            assert(old_log == middle.stream().log().take(old_log.len() as int));
        }
    }
}

/// Connecting looks up the choice and opens one place, which the choice decides
/// alone: without one, port 7001 of the host, whose CID is 2; for `tcp:` and an
/// address, that address; for `unix:` and a path, that path; for any other text,
/// what is opened without a choice. What was opened is what connecting gives,
/// and where nothing was, it gives error 100.
pub proof fn law_connect_opens_the_chosen_place<
    S: for<'a> Fn(Action<'a>) -> Result<Vec<u8>, IoError>,
    E: Fn() -> Option<String>,
    O: Fn(Endpoint) -> Option<S>,
>(before: Dialer<S, E, O>, after: Dialer<S, E, O>, outcome: Result<S, i32>)
    requires
        connects(before, after, outcome),
    ensures
        after.log().len() == before.log().len() + 2,
        before.log().is_prefix_of(after.log()),
        after.log()[before.log().len() as int] matches Dialed::Chosen(choice) && (
        after.log().last() matches Dialed::Opened(place, opened) && {
            &&& choice is None ==> place == (Place::Vsock { cid: 2, port: 7001 })
            &&& choice matches Some(text) ==> {
                &&& forall|rest: Seq<char>|
                    text == #[trigger] ("tcp:"@ + rest) ==> place == Place::Tcp(rest)
                &&& forall|rest: Seq<char>|
                    text == #[trigger] ("unix:"@ + rest) ==> place == Place::Unix(rest)
                &&& !"tcp:"@.is_prefix_of(text) && !"unix:"@.is_prefix_of(text) ==> place == (
                Place::Vsock { cid: 2, port: 7001 })
            }
            &&& opened matches Some(s) ==> outcome == Ok::<S, i32>(s)
            &&& opened is None ==> outcome == Err::<S, i32>(100)
            &&& dialer::may_choose(before.functions().0, choice)
            &&& dialer::may_open(before.functions().1, place, opened)
        }),
        after.functions() == before.functions(),
{
    reveal_strlit("tcp:");
    reveal_strlit("unix:");
    reveal_strlit("");
    let tcp = "tcp:"@;
    let unix = "unix:"@;
    let (choice, opened) = choose|choice: Option<Seq<char>>, opened: Option<S>|
        {
            let place = chosen(text_or_none(choice));
            &&& dialer::may_choose(before.functions().0, choice)
            &&& dialer::may_open(before.functions().1, place, opened)
            &&& after.log() == before.log() + #[trigger] attempt(choice, opened)
            &&& outcome == match opened {
                Some(s) => Ok::<S, i32>(s),
                None => Err::<S, i32>(HIP_ERROR_NO_DEVICE),
            }
        };
    let place = chosen(text_or_none(choice));
    let n = before.log().len() as int;
    assert(after.log()[n] == attempt(choice, opened)[0]);
    assert(after.log()[n + 1] == attempt(choice, opened)[1]);
    assert(before.log() =~= after.log().take(n));
    if let Some(text) = choice {
        assert forall|rest: Seq<char>| text == #[trigger] (tcp + rest) implies place == Place::Tcp(
            rest,
        ) by {
            assert(tcp =~= text.take(4));
            assert(rest =~= text.skip(4));
        }
        assert forall|rest: Seq<char>| text == #[trigger] (unix + rest) implies place
            == Place::Unix(rest) by {
            assert(text[0] == 'u');
            assert(text.take(4)[0] == 'u');
            assert(unix =~= text.take(5));
            assert(rest =~= text.skip(5));
        }
    }
}

/// The status of a call is 0 where it succeeded, the error of the host where
/// that is what it failed with, 100 where the stream failed, and 801 where the
/// reply was not to be understood.
pub proof fn law_status_tells_the_kind_of_failure(data: Result<Seq<u8>, HipRpcError>)
    ensures
        data is Ok ==> status_of(data) == 0,
        data matches Err(HipRpcError::Hip(error)) ==> status_of(data) == error,
        data matches Err(HipRpcError::Io(_)) ==> status_of(data) == 100,
        data matches Err(HipRpcError::Protocol(_)) ==> status_of(data) == 801,
{
}

/// Each error that has a text of its own has it, and every other has the text of
/// an unknown one.
pub proof fn law_texts_of_errors(error: i32)
    ensures
        error == 0 ==> error_text(error) == "hipSuccess"@,
        error == 1 ==> error_text(error) == "hipErrorInvalidValue"@,
        error == 2 ==> error_text(error) == "hipErrorOutOfMemory"@,
        error == 3 ==> error_text(error) == "hipErrorNotInitialized"@,
        error == 100 ==> error_text(error) == "hipErrorNoDevice"@,
        error == 801 ==> error_text(error)
            == "hipErrorNotSupported (smolvm-hip-shim: not yet implemented)"@,
        !(0 <= error <= 3) && error != 100 && error != 801 ==> error_text(error)
            == "hipErrorUnknown"@,
{
}

/// A call that reports success leaves its result in the target, and one that
/// reports an error leaves the target as it was.
pub proof fn law_target_changes_only_with_success<T>(res: Result<T, HipRpcError>, before: T)
    ensures
        res is Err ==> kept_or(res, before) == before,
        res matches Ok(value) ==> kept_or(res, before) == value && status_of(res) == 0,
        status_of(res) != 0 ==> kept_or(res, before) == before,
{
}

/// A call goes to the client that is there, on which it is one exchange and
/// without anything being dialed, or else to a new client on the stream that
/// connecting gave.
pub proof fn law_call_goes_to_the_client<
    S: for<'a> Fn(Action<'a>) -> Result<Vec<u8>, IoError>,
    E: Fn() -> Option<String>,
    O: Fn(Endpoint) -> Option<S>,
>(
    before: Link<S, E, O>,
    after: Link<S, E, O>,
    call: Call,
    data: Result<Seq<u8>, HipRpcError>,
)
    requires
        after.asked(&before, call, data),
    ensures
        after.client matches Some(end) && match before.client {
            Some(start) => {
                &&& after.dialer == before.dialer
                &&& end.stream().transport() == start.stream().transport()
                &&& start.stream().log().is_prefix_of(end.stream().log())
                &&& client::exchanged(
                    end.stream().log().skip(start.stream().log().len() as int),
                    call,
                    data,
                )
            },
            None => {
                &&& connects(before.dialer, after.dialer, Ok(end.stream().transport()))
                &&& client::exchanged(end.stream().log(), call, data)
            },
        },
{
    let end = after.client->Some_0;
    let start = choose|start: Client<S>| #[trigger]
        after.reached(&before, start) && end.called(&start, call, data);
    client::law_call_is_one_exchange(start, end, call, data);
    if before.client is None {
        assert(end.stream().log().skip(0) =~= end.stream().log());
    }
}

/// A call without a result either did not get a connection, which is error 100
/// and leaves none, or was made, and its status is 0, the error of the host, 100
/// for a failure of the stream, or 801 for a reply that was not to be understood.
pub proof fn law_status_of_a_call<
    S: for<'a> Fn(Action<'a>) -> Result<Vec<u8>, IoError>,
    E: Fn() -> Option<String>,
    O: Fn(Endpoint) -> Option<S>,
>(before: Link<S, E, O>, after: Link<S, E, O>, call: Call, status: i32)
    requires
        after.ended(&before, call, status),
    ensures
        ({
            ||| {
                &&& before.client is None
                &&& after.client is None
                &&& status == 100
                &&& connects(before.dialer, after.dialer, Err(100))
            }
            ||| exists|data: Result<Seq<u8>, HipRpcError>|
                {
                    &&& #[trigger] after.asked(&before, call, data)
                    &&& data is Ok ==> status == 0
                    &&& data matches Err(HipRpcError::Hip(error)) ==> status == error
                    &&& data matches Err(HipRpcError::Io(_)) ==> status == 100
                    &&& data matches Err(HipRpcError::Protocol(_)) ==> status == 801
                }
        }),
{
    if after.refused(&before, status) {
        law_unreachable_host_is_no_device(before, after, status);
    } else {
        let data = choose|data: Result<Seq<u8>, HipRpcError>| #[trigger]
            after.asked(&before, call, data) && status == status_of(data);
        assert(after.asked(&before, call, data));
    }
}

/// The count that a call gives is in the first four bytes of the data that the
/// host sent for it; without a count, the call failed or the data is too short.
pub proof fn law_count_of_a_call<
    S: for<'a> Fn(Action<'a>) -> Result<Vec<u8>, IoError>,
    E: Fn() -> Option<String>,
    O: Fn(Endpoint) -> Option<S>,
>(before: Link<S, E, O>, after: Link<S, E, O>, res: Result<i32, HipRpcError>)
    requires
        after.got_count(&before, res),
    ensures
        exists|data: Result<Seq<u8>, HipRpcError>|
            {
                &&& #[trigger] after.asked(&before, Call::DeviceGetCount, data)
                &&& data matches Ok(bytes) ==> {
                    &&& bytes.len() >= 4 ==> (res matches Ok(n) && n == wire::i32_in(bytes, 0))
                    &&& bytes.len() < 4 ==> (res matches Err(HipRpcError::Protocol(_)))
                }
                &&& data matches Err(e) ==> res == Err::<i32, HipRpcError>(e)
            },
{
    let data = choose|data: Result<Seq<u8>, HipRpcError>| #[trigger]
        after.asked(&before, Call::DeviceGetCount, data) && client::as_count(data, res);
    assert(after.asked(&before, Call::DeviceGetCount, data));
    if let Ok(bytes) = data {
        if bytes.len() >= 4 {
            wire::law_signed_numbers(0, bytes);
        }
    }
}

/// The number that a call gives is in the first eight bytes of the data that the
/// host sent for that call; without a number, the call failed or the data is too
/// short.
pub proof fn law_word_of_a_call<
    S: for<'a> Fn(Action<'a>) -> Result<Vec<u8>, IoError>,
    E: Fn() -> Option<String>,
    O: Fn(Endpoint) -> Option<S>,
>(
    before: Link<S, E, O>,
    after: Link<S, E, O>,
    call: Call,
    short: Seq<char>,
    res: Result<u64, HipRpcError>,
)
    requires
        after.got_word(&before, call, short, res),
    ensures
        exists|data: Result<Seq<u8>, HipRpcError>|
            {
                &&& #[trigger] after.asked(&before, call, data)
                &&& data matches Ok(bytes) ==> {
                    &&& bytes.len() >= 8 ==> (res matches Ok(w) && w == wire::u64_in(bytes, 0))
                    &&& bytes.len() < 8 ==> (res matches Err(HipRpcError::Protocol(m)) && m@
                        == short)
                }
                &&& data matches Err(e) ==> res == Err::<u64, HipRpcError>(e)
            },
{
    let data = choose|data: Result<Seq<u8>, HipRpcError>| #[trigger]
        after.asked(&before, call, data) && client::as_word(data, short, res);
    assert(after.asked(&before, call, data));
    if let Ok(bytes) = data {
        if bytes.len() >= 8 {
            wire::lemma_word_is_u64(bytes, 0);
        }
    }
}

/// The name that a call gives is the text of the data that the host sent for
/// that device: where the data is UTF-8, it is the encoding of the name.
pub proof fn law_name_of_a_call<
    S: for<'a> Fn(Action<'a>) -> Result<Vec<u8>, IoError>,
    E: Fn() -> Option<String>,
    O: Fn(Endpoint) -> Option<S>,
>(before: Link<S, E, O>, after: Link<S, E, O>, device: i32, res: Result<String, HipRpcError>)
    requires
        after.got_name(&before, device, res),
    ensures
        exists|data: Result<Seq<u8>, HipRpcError>|
            {
                &&& #[trigger] after.asked(&before, Call::DeviceGetName { device }, data)
                &&& data matches Ok(bytes) ==> (res matches Ok(name) && (vstd::utf8::valid_utf8(
                    bytes,
                ) ==> vstd::utf8::encode_utf8(name@) == bytes))
                &&& data matches Err(e) ==> res == Err::<String, HipRpcError>(e)
            },
{
    let call = Call::DeviceGetName { device };
    let data = choose|data: Result<Seq<u8>, HipRpcError>| #[trigger]
        after.asked(&before, call, data) && client::as_text(data, res);
    assert(after.asked(&before, call, data));
    if let Ok(bytes) = data {
        if vstd::utf8::valid_utf8(bytes) {
            vstd::utf8::decode_utf8_encode_utf8(bytes);
        }
    }
}

} // verus!
