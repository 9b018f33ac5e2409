//! Guest-side HIP-RPC client: marshal `hip*` calls over a byte stream.
//!
//! Each method does one request-response round-trip and surfaces a non-zero
//! `hipError_t` as [`HipRpcError::Hip`].

use crate::bytes::{i32_at, u64_at};
use crate::proto;
use crate::proto::{decode_response, encode_request, read_msg, write_msg, Call, Request};
use crate::stream;
use crate::stream::{Action, IoError, Step, Stream};
use crate::text;
use crate::text::text_from_utf8_lossy;
use vstd::prelude::*;
use vstd::slice::slice_to_vec;

verus! {

/// Why a call over the wire failed.
#[derive(Debug)]
pub enum HipRpcError {
    /// The stream failed.
    Io(IoError),
    /// Non-zero `hipError_t` returned by the host runtime.
    Hip(i32),
    /// The host's answer does not follow the protocol.
    Protocol(&'static str),
}

impl HipRpcError {
    /// Whether this is a protocol error with the given message.
    pub open spec fn is_protocol(self, message: Seq<char>) -> bool {
        self matches HipRpcError::Protocol(m) && m@ == message
    }

    /// The text that reports the error.
    pub open spec fn report(self) -> Seq<char> {
        match self {
            HipRpcError::Io(e) => "hip-rpc io: "@ + e.message@,
            HipRpcError::Hip(code) => "HIP error "@ + text::decimal(code as int),
            HipRpcError::Protocol(m) => "hip-rpc protocol: "@ + m@,
        }
    }

    /// The text that reports the error.
    pub fn to_text(&self) -> (report: String)
        ensures
            report@ == self.report(),
    {
        match self {
            HipRpcError::Io(e) => text::joined("hip-rpc io: ", e.message.as_str()),
            HipRpcError::Hip(code) => {
                let number = text::decimal_text(*code);
                text::joined("HIP error ", number.as_str())
            },
            HipRpcError::Protocol(m) => text::joined("hip-rpc protocol: ", m),
        }
    }
}

impl From<IoError> for HipRpcError {
    fn from(e: IoError) -> (r: HipRpcError) {
        HipRpcError::Io(e)
    }
}

impl vstd::std_specs::convert::FromSpecImpl<IoError> for HipRpcError {
    open spec fn obeys_from_spec() -> bool {
        true
    }

    open spec fn from_spec(e: IoError) -> HipRpcError {
        HipRpcError::Io(e)
    }
}

/// Whether `res` is what the response payload `payload` means to the caller:
/// its data, or the host's error, or a protocol error where it is no response.
pub open spec fn means(payload: Seq<u8>, res: Result<Seq<u8>, HipRpcError>) -> bool {
    match proto::parse_reply(payload) {
        Err(_) => res matches Err(e) && e.is_protocol("malformed response"@),
        Ok(reply) => if reply.status != 0 {
            res == Err::<Seq<u8>, HipRpcError>(HipRpcError::Hip(reply.status))
        } else {
            res == Ok::<Seq<u8>, HipRpcError>(reply.data)
        },
    }
}

/// Whether `steps` are one round-trip for `call` that ends in `res`: the
/// request goes out as one frame, one frame comes back, and the first failure
/// ends the exchange.
pub open spec fn exchanged(
    steps: Seq<Step>,
    call: Call,
    res: Result<Seq<u8>, HipRpcError>,
) -> bool {
    ||| exists|e: IoError|
        #![trigger proto::writes_msg(steps, call.payload(), Err(e))]
        proto::writes_msg(steps, call.payload(), Err(e)) && res == Err::<Seq<u8>, HipRpcError>(
            HipRpcError::Io(e),
        )
    ||| {
        &&& steps.len() > 3
        &&& proto::writes_msg(steps.take(3), call.payload(), Ok(()))
        &&& exists|msg: Result<Seq<u8>, IoError>| #[trigger]
            proto::reads_msg(steps.skip(3), msg) && match msg {
                Err(e) => res == Err::<Seq<u8>, HipRpcError>(HipRpcError::Io(e)),
                Ok(payload) => means(payload, res),
            }
    }
}

/// What a caller sees of a reply's data.
pub open spec fn shown(data: Result<Vec<u8>, HipRpcError>) -> Result<Seq<u8>, HipRpcError> {
    match data {
        Ok(bytes) => Ok(bytes@),
        Err(e) => Err(e),
    }
}

/// Whether `res` only says that the call succeeded, or why not.
pub open spec fn as_unit(
    data: Result<Seq<u8>, HipRpcError>,
    res: Result<(), HipRpcError>,
) -> bool {
    match data {
        Ok(_) => res == Ok::<(), HipRpcError>(()),
        Err(e) => res == Err::<(), HipRpcError>(e),
    }
}

/// Whether `res` is the device count in the reply's data.
pub open spec fn as_count(
    data: Result<Seq<u8>, HipRpcError>,
    res: Result<i32, HipRpcError>,
) -> bool {
    match data {
        Ok(bytes) => if bytes.len() < 4 {
            res matches Err(e) && e.is_protocol("short DeviceGetCount reply"@)
        } else {
            res == Ok::<i32, HipRpcError>(proto::small(bytes))
        },
        Err(e) => res == Err::<i32, HipRpcError>(e),
    }
}

/// Whether `res` is the 64-bit number in the reply's data, or the protocol
/// error `short` where the data is too short for one.
pub open spec fn as_word(
    data: Result<Seq<u8>, HipRpcError>,
    short: Seq<char>,
    res: Result<u64, HipRpcError>,
) -> bool {
    match data {
        Ok(bytes) => if bytes.len() < 8 {
            res matches Err(e) && e.is_protocol(short)
        } else {
            res == Ok::<u64, HipRpcError>(proto::word(bytes, 0))
        },
        Err(e) => res == Err::<u64, HipRpcError>(e),
    }
}

/// Whether `res` is the text in the reply's data.
pub open spec fn as_text(
    data: Result<Seq<u8>, HipRpcError>,
    res: Result<String, HipRpcError>,
) -> bool {
    match data {
        Ok(bytes) => res matches Ok(s) && s@ == text::text_of(bytes),
        Err(e) => res == Err::<String, HipRpcError>(e),
    }
}

/// What the response payload `payload` means to the caller.
pub fn response_data(payload: &[u8]) -> (res: Result<Vec<u8>, HipRpcError>)
    ensures
        means(payload@, shown(res)),
{
    let resp = match decode_response(payload) {
        Ok(resp) => resp,
        Err(_) => return Err(HipRpcError::Protocol("malformed response")),
    };
    if resp.status != 0 {
        return Err(HipRpcError::Hip(resp.status));
    }
    Ok(resp.data)
}

/// The device count in the data of a reply.
pub fn count_in(data: &[u8]) -> (res: Result<i32, HipRpcError>)
    ensures
        as_count(Ok(data@), res),
{
    if data.len() < 4 {
        return Err(HipRpcError::Protocol("short DeviceGetCount reply"));
    }
    assert(data@.subrange(0, 4) =~= data@.take(4));
    Ok(i32_at(data, 0))
}

/// The 64-bit number in the data of a reply.
pub fn word_in(data: &[u8], short: &'static str) -> (res: Result<u64, HipRpcError>)
    ensures
        as_word(Ok(data@), short@, res),
{
    if data.len() < 8 {
        return Err(HipRpcError::Protocol(short));
    }
    Ok(u64_at(data, 0))
}

/// A connection to the host HIP daemon over any byte stream.
pub struct Client<S> {
    stream: Stream<S>,
}

impl<S: for<'a> Fn(Action<'a>) -> Result<Vec<u8>, IoError>> Client<S> {
    /// The stream to the host.
    pub closed spec fn stream(&self) -> Stream<S> {
        self.stream
    }

    /// The stream is in order.
    pub open spec fn wf(&self) -> bool {
        self.stream().wf()
    }

    /// `self` came from `before` by one round-trip for `call` that ended in
    /// `data`.
    pub open spec fn called(
        &self,
        before: &Self,
        call: Call,
        data: Result<Seq<u8>, HipRpcError>,
    ) -> bool {
        exists|steps: Seq<Step>| #[trigger]
            self.stream().ran(&before.stream(), steps) && exchanged(steps, call, data)
    }

    /// A client over `stream`, on which nothing has been sent yet.
    pub fn new(stream: S) -> (c: Self)
        requires
            stream::is_transport(stream),
        ensures
            c.wf(),
            c.stream().transport() == stream,
            c.stream().log() == Seq::<Step>::empty(),
    {
        Client { stream: Stream::new(stream) }
    }

    /// One round-trip.
    fn call(&mut self, req: Request) -> (res: Result<Vec<u8>, HipRpcError>)
        requires
            old(self).wf(),
        ensures
            final(self).called(old(self), req@, shown(res)),
    {
        let payload = encode_request(&req);
        let wrote = write_msg(&mut self.stream, payload.as_slice());
        let ghost middle = self.stream;
        let ghost out = choose|steps: Seq<Step>| #[trigger]
            middle.ran(&old(self).stream, steps) && proto::writes_msg(steps, req@.payload(), wrote);
        if let Err(e) = wrote {
            assert(exchanged(out, req@, Err(HipRpcError::Io(e))));
            assert(self.stream().ran(&old(self).stream(), out));
            return Err(HipRpcError::Io(e));
        }
        let msg = read_msg(&mut self.stream);
        let ghost back = choose|steps: Seq<Step>| #[trigger]
            self.stream.ran(&middle, steps) && proto::reads_msg(steps, stream::seen(msg));
        proof {
            let steps = out + back;
            assert(steps.take(3) =~= out);
            assert(steps.skip(3) =~= back);
            assert(self.stream.log() =~= old(self).stream.log() + steps);
            assert(self.stream().ran(&old(self).stream(), steps));
        }
        let ghost steps = out + back;
        match msg {
            Err(e) => {
                assert(exchanged(steps, req@, Err(HipRpcError::Io(e))));
                Err(HipRpcError::Io(e))
            },
            Ok(resp_payload) => {
                let res = response_data(resp_payload.as_slice());
                assert(exchanged(steps, req@, shown(res)));
                res
            },
        }
    }

    /// One round-trip whose reply has no data of interest.
    fn call_unit(&mut self, req: Request) -> (res: Result<(), HipRpcError>)
        requires
            old(self).wf(),
        ensures
            exists|data: Result<Seq<u8>, HipRpcError>| #[trigger]
                final(self).called(old(self), req@, data) && as_unit(data, res),
    {
        match self.call(req) {
            Ok(_) => Ok(()),
            Err(e) => Err(e),
        }
    }

    /// Initializes the runtime.
    pub fn init(&mut self) -> (res: Result<(), HipRpcError>)
        requires
            old(self).wf(),
        ensures
            exists|data: Result<Seq<u8>, HipRpcError>| #[trigger]
                final(self).called(old(self), Call::Init, data) && as_unit(data, res),
    {
        self.call_unit(Request::Init)
    }

    /// The number of devices.
    pub fn device_get_count(&mut self) -> (res: Result<i32, HipRpcError>)
        requires
            old(self).wf(),
        ensures
            exists|data: Result<Seq<u8>, HipRpcError>| #[trigger]
                final(self).called(old(self), Call::DeviceGetCount, data) && as_count(data, res),
    {
        match self.call(Request::DeviceGetCount) {
            Ok(data) => count_in(data.as_slice()),
            Err(e) => Err(e),
        }
    }

    /// The name of a device.
    pub fn device_get_name(&mut self, device: i32) -> (res: Result<String, HipRpcError>)
        requires
            old(self).wf(),
        ensures
            exists|data: Result<Seq<u8>, HipRpcError>| #[trigger]
                final(self).called(old(self), Call::DeviceGetName { device }, data) && as_text(
                    data,
                    res,
                ),
    {
        match self.call(Request::DeviceGetName { device }) {
            Ok(data) => Ok(text_from_utf8_lossy(data.as_slice())),
            Err(e) => Err(e),
        }
    }

    /// The memory of a device in bytes.
    pub fn device_total_mem(&mut self, device: i32) -> (res: Result<u64, HipRpcError>)
        requires
            old(self).wf(),
        ensures
            exists|data: Result<Seq<u8>, HipRpcError>| #[trigger]
                final(self).called(old(self), Call::DeviceTotalMem { device }, data) && as_word(
                    data,
                    "short DeviceTotalMem reply"@,
                    res,
                ),
    {
        match self.call(Request::DeviceTotalMem { device }) {
            Ok(data) => word_in(data.as_slice(), "short DeviceTotalMem reply"),
            Err(e) => Err(e),
        }
    }

    /// Allocates device memory and returns its address.
    pub fn mem_alloc(&mut self, size: u64) -> (res: Result<u64, HipRpcError>)
        requires
            old(self).wf(),
        ensures
            exists|data: Result<Seq<u8>, HipRpcError>| #[trigger]
                final(self).called(old(self), Call::MemAlloc { size }, data) && as_word(
                    data,
                    "short MemAlloc reply"@,
                    res,
                ),
    {
        match self.call(Request::MemAlloc { size }) {
            Ok(data) => word_in(data.as_slice(), "short MemAlloc reply"),
            Err(e) => Err(e),
        }
    }

    /// Frees device memory.
    pub fn mem_free(&mut self, dptr: u64) -> (res: Result<(), HipRpcError>)
        requires
            old(self).wf(),
        ensures
            exists|data: Result<Seq<u8>, HipRpcError>| #[trigger]
                final(self).called(old(self), Call::MemFree { dptr }, data) && as_unit(data, res),
    {
        self.call_unit(Request::MemFree { dptr })
    }

    /// Copies `data` to device memory.
    pub fn memcpy_h2d(&mut self, dptr: u64, data: &[u8]) -> (res: Result<(), HipRpcError>)
        requires
            old(self).wf(),
        ensures
            exists|reply: Result<Seq<u8>, HipRpcError>| #[trigger]
                final(self).called(old(self), Call::MemcpyHtoD { dptr, data: data@ }, reply)
                    && as_unit(reply, res),
    {
        self.call_unit(Request::MemcpyHtoD { dptr, data: slice_to_vec(data) })
    }

    /// Copies `size` bytes of device memory to the guest.
    pub fn memcpy_d2h(&mut self, dptr: u64, size: u64) -> (res: Result<Vec<u8>, HipRpcError>)
        requires
            old(self).wf(),
        ensures
            final(self).called(old(self), Call::MemcpyDtoH { dptr, size }, shown(res)),
    {
        self.call(Request::MemcpyDtoH { dptr, size })
    }

    /// Copies `size` bytes within device memory.
    pub fn memcpy_d2d(&mut self, dst: u64, src: u64, size: u64) -> (res: Result<(), HipRpcError>)
        requires
            old(self).wf(),
        ensures
            exists|data: Result<Seq<u8>, HipRpcError>| #[trigger]
                final(self).called(old(self), Call::MemcpyDtoD { dst, src, size }, data)
                    && as_unit(data, res),
    {
        self.call_unit(Request::MemcpyDtoD { dst, src, size })
    }

    /// Waits until the device is idle.
    pub fn device_synchronize(&mut self) -> (res: Result<(), HipRpcError>)
        requires
            old(self).wf(),
        ensures
            exists|data: Result<Seq<u8>, HipRpcError>| #[trigger]
                final(self).called(old(self), Call::DeviceSynchronize, data) && as_unit(data, res),
    {
        self.call_unit(Request::DeviceSynchronize)
    }
}

/// The report of an error says what kind it is, and then all that is known of
/// it.
pub proof fn law_report_tells_the_error(e: HipRpcError)
    ensures
        e matches HipRpcError::Io(io) ==> "hip-rpc io: "@.is_prefix_of(e.report())
            && e.report().skip(12) == io.message@,
        e matches HipRpcError::Hip(code) ==> "HIP error "@.is_prefix_of(e.report())
            && e.report().skip(10) == text::decimal(code as int),
        e matches HipRpcError::Protocol(m) ==> "hip-rpc protocol: "@.is_prefix_of(e.report())
            && e.report().skip(18) == m@,
{
    reveal_strlit("hip-rpc io: ");
    reveal_strlit("HIP error ");
    reveal_strlit("hip-rpc protocol: ");
    let report = e.report();
    match e {
        HipRpcError::Io(io) => {
            assert(report.skip(12) =~= io.message@);
            assert("hip-rpc io: "@ =~= report.take(12));
        },
        HipRpcError::Hip(code) => {
            assert(report.skip(10) =~= text::decimal(code as int));
            assert("HIP error "@ =~= report.take(10));
        },
        HipRpcError::Protocol(m) => {
            assert(report.skip(18) =~= m@);
            assert("hip-rpc protocol: "@ =~= report.take(18));
        },
    }
}

/// A call is one exchange on the stream of its client, for that very call, and
/// nothing else happens there.
pub proof fn law_call_is_one_exchange<S: for<'a> Fn(Action<'a>) -> Result<Vec<u8>, IoError>>(
    before: Client<S>,
    after: Client<S>,
    call: Call,
    data: Result<Seq<u8>, HipRpcError>,
)
    requires
        after.called(&before, call, data),
    ensures
        after.stream().transport() == before.stream().transport(),
        before.stream().log().is_prefix_of(after.stream().log()),
        exchanged(after.stream().log().skip(before.stream().log().len() as int), call, data),
{
    let steps = choose|steps: Seq<Step>| #[trigger]
        after.stream().ran(&before.stream(), steps) && exchanged(steps, call, data);
    let n = before.stream().log().len() as int;
    assert(after.stream().log().skip(n) =~= steps);
    assert(before.stream().log() =~= after.stream().log().take(n));
}

/// What is shown of a reply's data is all of it.
pub proof fn law_data_is_shown_whole(data: Result<Vec<u8>, HipRpcError>)
    ensures
        data matches Ok(bytes) ==> (shown(data) matches Ok(seen) && seen.len() == bytes@.len()
            && forall|i: int| 0 <= i < seen.len() ==> #[trigger] seen[i] == bytes[i]),
        data matches Err(e) ==> shown(data) == Err::<Seq<u8>, HipRpcError>(e),
{
}

} // verus!
