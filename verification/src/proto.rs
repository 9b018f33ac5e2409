//! Wire protocol for HIP remoting over a byte stream.
//!
//! Framing: every message is a `u32` little-endian length followed by the
//! payload. A request payload is a `u8` opcode then its arguments; a response
//! payload is an `i32` status (`hipError_t`, little-endian) then return data
//! (present only when the status is 0).
//!
//! Device pointers are passed by their real value, because the parameters of a
//! kernel launch embed the device address by value.

use crate::bytes;
use crate::bytes::{read_i32, read_u32, read_u64, write_i32, write_u32, write_u64, Cursor};
use crate::stream;
use crate::stream::{Action, Asked, IoError, IoErrorKind, Step, Stream};
use vstd::prelude::*;

verus! {

/// Maximum accepted message payload (256 MiB): bounds a hostile length field.
pub const MAX_MSG: usize = 0x1000_0000;

/// Request opcodes.
#[derive(Debug, Clone, Copy, PartialEq, Eq, Structural)]
pub enum Op {
    Init,
    DeviceGetCount,
    DeviceGetName,
    DeviceTotalMem,
    MemAlloc,
    MemFree,
    MemcpyHtoD,
    MemcpyDtoH,
    MemcpyDtoD,
    DeviceSynchronize,
}

impl Op {
    /// The wire value of the opcode. Stable: append only.
    pub open spec fn code(self) -> u8 {
        match self {
            Op::Init => 0x01,
            Op::DeviceGetCount => 0x02,
            Op::DeviceGetName => 0x03,
            Op::DeviceTotalMem => 0x04,
            Op::MemAlloc => 0x10,
            Op::MemFree => 0x11,
            Op::MemcpyHtoD => 0x12,
            Op::MemcpyDtoH => 0x13,
            Op::MemcpyDtoD => 0x14,
            Op::DeviceSynchronize => 0x20,
        }
    }

    /// The wire value of the opcode.
    pub fn to_u8(self) -> (b: u8)
        ensures
            b == self.code(),
    {
        match self {
            Op::Init => 0x01,
            Op::DeviceGetCount => 0x02,
            Op::DeviceGetName => 0x03,
            Op::DeviceTotalMem => 0x04,
            Op::MemAlloc => 0x10,
            Op::MemFree => 0x11,
            Op::MemcpyHtoD => 0x12,
            Op::MemcpyDtoH => 0x13,
            Op::MemcpyDtoD => 0x14,
            Op::DeviceSynchronize => 0x20,
        }
    }

    /// The opcode with the wire value `b`, if there is one.
    pub fn from_u8(b: u8) -> (op: Option<Op>)
        ensures
            match op {
                Some(op) => op.code() == b,
                None => forall|op: Op| #[trigger] op.code() != b,
            },
    {
        Some(
            match b {
                0x01 => Op::Init,
                0x02 => Op::DeviceGetCount,
                0x03 => Op::DeviceGetName,
                0x04 => Op::DeviceTotalMem,
                0x10 => Op::MemAlloc,
                0x11 => Op::MemFree,
                0x12 => Op::MemcpyHtoD,
                0x13 => Op::MemcpyDtoH,
                0x14 => Op::MemcpyDtoD,
                0x20 => Op::DeviceSynchronize,
                _ => return None,
            },
        )
    }
}

/// No two opcodes share a wire value.
pub proof fn law_opcodes_distinct(a: Op, b: Op)
    requires
        a.code() == b.code(),
    ensures
        a == b,
{
}

/// A call on the GPU, as the guest asks for it.
#[derive(Debug, Clone)]
pub enum Request {
    Init,
    DeviceGetCount,
    DeviceGetName { device: i32 },
    DeviceTotalMem { device: i32 },
    MemAlloc { size: u64 },
    MemFree { dptr: u64 },
    MemcpyHtoD { dptr: u64, data: Vec<u8> },
    MemcpyDtoH { dptr: u64, size: u64 },
    MemcpyDtoD { dst: u64, src: u64, size: u64 },
    DeviceSynchronize,
}

/// What a [`Request`] says.
pub enum Call {
    Init,
    DeviceGetCount,
    DeviceGetName { device: i32 },
    DeviceTotalMem { device: i32 },
    MemAlloc { size: u64 },
    MemFree { dptr: u64 },
    MemcpyHtoD { dptr: u64, data: Seq<u8> },
    MemcpyDtoH { dptr: u64, size: u64 },
    MemcpyDtoD { dst: u64, src: u64, size: u64 },
    DeviceSynchronize,
}

impl Call {
    /// The opcode of the call.
    pub open spec fn op(self) -> Op {
        match self {
            Call::Init => Op::Init,
            Call::DeviceGetCount => Op::DeviceGetCount,
            Call::DeviceGetName { .. } => Op::DeviceGetName,
            Call::DeviceTotalMem { .. } => Op::DeviceTotalMem,
            Call::MemAlloc { .. } => Op::MemAlloc,
            Call::MemFree { .. } => Op::MemFree,
            Call::MemcpyHtoD { .. } => Op::MemcpyHtoD,
            Call::MemcpyDtoH { .. } => Op::MemcpyDtoH,
            Call::MemcpyDtoD { .. } => Op::MemcpyDtoD,
            Call::DeviceSynchronize => Op::DeviceSynchronize,
        }
    }

    /// The encoded arguments.
    pub open spec fn args(self) -> Seq<u8> {
        match self {
            Call::Init | Call::DeviceGetCount | Call::DeviceSynchronize => Seq::empty(),
            Call::DeviceGetName { device } | Call::DeviceTotalMem { device } => bytes::le_bytes(
                bytes::i32_bits(device),
                4,
            ),
            Call::MemAlloc { size } => bytes::le_bytes(size as nat, 8),
            Call::MemFree { dptr } => bytes::le_bytes(dptr as nat, 8),
            Call::MemcpyHtoD { dptr, data } => bytes::le_bytes(dptr as nat, 8) + bytes::le_bytes(
                data.len(),
                8,
            ) + data,
            Call::MemcpyDtoH { dptr, size } => bytes::le_bytes(dptr as nat, 8) + bytes::le_bytes(
                size as nat,
                8,
            ),
            Call::MemcpyDtoD { dst, src, size } => bytes::le_bytes(dst as nat, 8) + bytes::le_bytes(
                src as nat,
                8,
            ) + bytes::le_bytes(size as nat, 8),
        }
    }

    /// The request payload.
    pub open spec fn payload(self) -> Seq<u8> {
        seq![self.op().code()] + self.args()
    }

    /// Whether the length of the data is a 64-bit number, as that of every
    /// [`Request`] is.
    pub open spec fn fits(self) -> bool {
        self matches Call::MemcpyHtoD { data, .. } ==> data.len() <= u64::MAX
    }
}

impl View for Request {
    type V = Call;

    open spec fn view(&self) -> Call {
        match self {
            Request::Init => Call::Init,
            Request::DeviceGetCount => Call::DeviceGetCount,
            Request::DeviceGetName { device } => Call::DeviceGetName { device: *device },
            Request::DeviceTotalMem { device } => Call::DeviceTotalMem { device: *device },
            Request::MemAlloc { size } => Call::MemAlloc { size: *size },
            Request::MemFree { dptr } => Call::MemFree { dptr: *dptr },
            Request::MemcpyHtoD { dptr, data } => Call::MemcpyHtoD { dptr: *dptr, data: data@ },
            Request::MemcpyDtoH { dptr, size } => Call::MemcpyDtoH { dptr: *dptr, size: *size },
            Request::MemcpyDtoD { dst, src, size } => Call::MemcpyDtoD {
                dst: *dst,
                src: *src,
                size: *size,
            },
            Request::DeviceSynchronize => Call::DeviceSynchronize,
        }
    }
}

impl Request {
    /// The opcode of the request.
    pub fn op(&self) -> (op: Op)
        ensures
            op == self@.op(),
    {
        match self {
            Request::Init => Op::Init,
            Request::DeviceGetCount => Op::DeviceGetCount,
            Request::DeviceGetName { .. } => Op::DeviceGetName,
            Request::DeviceTotalMem { .. } => Op::DeviceTotalMem,
            Request::MemAlloc { .. } => Op::MemAlloc,
            Request::MemFree { .. } => Op::MemFree,
            Request::MemcpyHtoD { .. } => Op::MemcpyHtoD,
            Request::MemcpyDtoH { .. } => Op::MemcpyDtoH,
            Request::MemcpyDtoD { .. } => Op::MemcpyDtoD,
            Request::DeviceSynchronize => Op::DeviceSynchronize,
        }
    }
}

/// A response's return data, shaped by the operation. Empty when the operation
/// has no payload beyond the status code.
#[derive(Debug, Clone)]
pub struct Response {
    pub status: i32,
    pub data: Vec<u8>,
}

/// What a [`Response`] says.
#[verifier::ext_equal]
pub struct Reply {
    pub status: i32,
    pub data: Seq<u8>,
}

impl Reply {
    /// The response payload.
    pub open spec fn payload(self) -> Seq<u8> {
        bytes::le_bytes(bytes::i32_bits(self.status), 4) + self.data
    }
}

impl View for Response {
    type V = Reply;

    open spec fn view(&self) -> Reply {
        Reply { status: self.status, data: self.data@ }
    }
}

impl Default for Response {
    fn default() -> (r: Response)
        ensures
            r@ == (Reply { status: 0, data: Seq::empty() }),
    {
        Response { status: 0, data: Vec::new() }
    }
}

/// Why a payload is not a message.
pub enum Fault {
    /// The payload ends too early.
    Truncated,
    /// The first byte is no opcode.
    UnknownOpcode,
}

impl Fault {
    /// Whether `e` reports this fault.
    pub open spec fn reported(self, e: IoError) -> bool {
        match self {
            Fault::Truncated => bytes::is_end_of_input(e),
            Fault::UnknownOpcode => e.says(IoErrorKind::InvalidData, "unknown opcode"@),
        }
    }
}

/// The `i`th of the `u64` arguments in `args`.
pub open spec fn word(args: Seq<u8>, i: int) -> u64 {
    bytes::le_value(args.subrange(8 * i, 8 * i + 8)) as u64
}

/// The `i32` argument in `args`.
pub open spec fn small(args: Seq<u8>) -> i32 {
    bytes::i32_of_bits(bytes::le_value(args.take(4))) as i32
}

/// The call that `op` with `args` stands for. What follows the arguments is
/// ignored.
pub open spec fn parse_args(op: Op, args: Seq<u8>) -> Result<Call, Fault> {
    let needed: int = match op {
        Op::Init | Op::DeviceGetCount | Op::DeviceSynchronize => 0,
        Op::DeviceGetName | Op::DeviceTotalMem => 4,
        Op::MemAlloc | Op::MemFree => 8,
        Op::MemcpyHtoD => 16 + if args.len() < 16 {
            0
        } else {
            word(args, 1) as int
        },
        Op::MemcpyDtoH => 16,
        Op::MemcpyDtoD => 24,
    };
    if args.len() < needed {
        Err(Fault::Truncated)
    } else {
        Ok(
            match op {
                Op::Init => Call::Init,
                Op::DeviceGetCount => Call::DeviceGetCount,
                Op::DeviceGetName => Call::DeviceGetName { device: small(args) },
                Op::DeviceTotalMem => Call::DeviceTotalMem { device: small(args) },
                Op::MemAlloc => Call::MemAlloc { size: word(args, 0) },
                Op::MemFree => Call::MemFree { dptr: word(args, 0) },
                Op::MemcpyHtoD => Call::MemcpyHtoD {
                    dptr: word(args, 0),
                    data: args.subrange(16, 16 + word(args, 1)),
                },
                Op::MemcpyDtoH => Call::MemcpyDtoH { dptr: word(args, 0), size: word(args, 1) },
                Op::MemcpyDtoD => Call::MemcpyDtoD {
                    dst: word(args, 0),
                    src: word(args, 1),
                    size: word(args, 2),
                },
                Op::DeviceSynchronize => Call::DeviceSynchronize,
            },
        )
    }
}

/// The call that a request payload stands for.
pub open spec fn parse_call(payload: Seq<u8>) -> Result<Call, Fault> {
    if payload.len() == 0 {
        Err(Fault::Truncated)
    } else if exists|op: Op| #[trigger] op.code() == payload[0] {
        parse_args(choose|op: Op| #[trigger] op.code() == payload[0], payload.skip(1))
    } else {
        Err(Fault::UnknownOpcode)
    }
}

/// The reply that a response payload stands for.
pub open spec fn parse_reply(payload: Seq<u8>) -> Result<Reply, Fault> {
    if payload.len() < 4 {
        Err(Fault::Truncated)
    } else {
        Ok(Reply { status: small(payload), data: payload.skip(4) })
    }
}

/// Whether `e` says that a message is too long for a frame.
pub open spec fn is_too_long(e: IoError) -> bool {
    e.says(IoErrorKind::InvalidInput, "frame too large"@)
}

/// Whether `steps` write `payload` as one frame and end in `res`. A payload
/// whose length is no 32-bit number has no frame: nothing is written.
pub open spec fn writes_msg(
    steps: Seq<Step>,
    payload: Seq<u8>,
    res: Result<(), IoError>,
) -> bool {
    if payload.len() > u32::MAX {
        &&& steps.len() == 0
        &&& res matches Err(e) && is_too_long(e)
    } else {
        &&& 1 <= steps.len() <= 3
        &&& steps[0].asked == Asked::WriteAll(bytes::le_bytes(payload.len(), 4))
        &&& steps.len() > 1 ==> steps[0].outcome is Ok && steps[1].asked == Asked::WriteAll(payload)
        &&& steps.len() > 2 ==> steps[1].outcome is Ok && steps[2].asked == Asked::Flush
        &&& match res {
            Ok(_) => steps.len() == 3 && steps[2].outcome is Ok,
            Err(e) => steps.last().outcome == Err::<Seq<u8>, IoError>(e),
        }
    }
}

/// Whether `steps` read one frame and end in `res`, the frame's payload.
pub open spec fn reads_msg(steps: Seq<Step>, res: Result<Seq<u8>, IoError>) -> bool {
    &&& steps.len() >= 1
    &&& steps[0].asked == Asked::ReadExact(4)
    &&& match steps[0].outcome {
        Err(e) => steps.len() == 1 && res == Err::<Seq<u8>, IoError>(e),
        Ok(header) => {
            let len = bytes::le_value(header);
            if len > MAX_MSG {
                &&& steps.len() == 1
                &&& res matches Err(e) && e.says(IoErrorKind::InvalidData, "frame too large"@)
            } else {
                &&& steps.len() == 2
                &&& steps[1].asked == Asked::ReadExact(len)
                &&& res == steps[1].outcome
            }
        },
    }
}

/// Reads one length-prefixed frame's payload.
pub fn read_msg<S: for<'a> Fn(Action<'a>) -> Result<Vec<u8>, IoError>>(r: &mut Stream<S>) -> (res:
    Result<Vec<u8>, IoError>)
    requires
        old(r).wf(),
    ensures
        exists|steps: Seq<Step>| #[trigger]
            final(r).ran(old(r), steps) && reads_msg(steps, stream::seen(res)),
{
    let header = r.perform(Action::ReadExact(4));
    let ghost first = Step { asked: Asked::ReadExact(4), outcome: stream::seen(header) };
    let mut cur = match &header {
        Ok(b) => Cursor::new(b.as_slice()),
        Err(_) => {
            assert(r.ran(old(r), seq![first]));
            return header;
        },
    };
    let len: usize = read_u32(&mut cur)? as usize;
    assert(header->Ok_0@.take(4) =~= header->Ok_0@);
    if len > MAX_MSG {
        assert(r.ran(old(r), seq![first]));
        return Err(IoError::new(IoErrorKind::InvalidData, "frame too large"));
    }
    let body = r.perform(Action::ReadExact(len));
    let ghost second = Step { asked: Asked::ReadExact(len as nat), outcome: stream::seen(body) };
    assert(r.log() =~= old(r).log() + seq![first, second]);
    assert(r.ran(old(r), seq![first, second]));
    body
}

/// Writes one length-prefixed frame. The length of a message must be a 32-bit
/// number.
pub fn write_msg<S: for<'a> Fn(Action<'a>) -> Result<Vec<u8>, IoError>>(
    w: &mut Stream<S>,
    payload: &[u8],
) -> (res: Result<(), IoError>)
    requires
        old(w).wf(),
    ensures
        exists|steps: Seq<Step>| #[trigger]
            final(w).ran(old(w), steps) && writes_msg(steps, payload@, res),
        payload@.len() > u32::MAX ==> *final(w) == *old(w),
{
    let len: u64 = payload.len() as u64;
    if len > u32::MAX as u64 {
        assert(w.log() =~= old(w).log() + Seq::<Step>::empty());
        assert(w.ran(old(w), Seq::empty()));
        return Err(IoError::new(IoErrorKind::InvalidInput, "frame too large"));
    }
    let mut header: Vec<u8> = Vec::new();
    write_u32(&mut header, len as u32);
    assert(header@ =~= bytes::le_bytes(payload@.len(), 4));
    let wrote_header = w.perform(Action::WriteAll(header.as_slice()));
    let ghost first = Step {
        asked: Asked::WriteAll(header@),
        outcome: stream::seen(wrote_header),
    };
    if let Err(e) = wrote_header {
        assert(w.ran(old(w), seq![first]));
        return Err(e);
    }
    let wrote_payload = w.perform(Action::WriteAll(payload));
    let ghost second = Step {
        asked: Asked::WriteAll(payload@),
        outcome: stream::seen(wrote_payload),
    };
    if let Err(e) = wrote_payload {
        assert(w.log() =~= old(w).log() + seq![first, second]);
        assert(w.ran(old(w), seq![first, second]));
        return Err(e);
    }
    let flushed = w.perform(Action::Flush);
    let ghost third = Step { asked: Asked::Flush, outcome: stream::seen(flushed) };
    assert(w.log() =~= old(w).log() + seq![first, second, third]);
    assert(w.ran(old(w), seq![first, second, third]));
    match flushed {
        Ok(_) => Ok(()),
        Err(e) => Err(e),
    }
}

/// The payload of a request.
pub fn encode_request(req: &Request) -> (buf: Vec<u8>)
    ensures
        buf@ == req@.payload(),
{
    let mut buf: Vec<u8> = Vec::new();
    buf.push(req.op().to_u8());
    match req {
        Request::Init | Request::DeviceGetCount | Request::DeviceSynchronize => {},
        Request::DeviceGetName { device } | Request::DeviceTotalMem { device } => {
            write_i32(&mut buf, *device);
        },
        Request::MemAlloc { size } => {
            write_u64(&mut buf, *size);
        },
        Request::MemFree { dptr } => {
            write_u64(&mut buf, *dptr);
        },
        Request::MemcpyHtoD { dptr, data } => {
            write_u64(&mut buf, *dptr);
            write_u64(&mut buf, data.len() as u64);
            buf.extend_from_slice(data.as_slice());
        },
        Request::MemcpyDtoH { dptr, size } => {
            write_u64(&mut buf, *dptr);
            write_u64(&mut buf, *size);
        },
        Request::MemcpyDtoD { dst, src, size } => {
            write_u64(&mut buf, *dst);
            write_u64(&mut buf, *src);
            write_u64(&mut buf, *size);
        },
    }
    assert(buf@ =~= req@.payload());
    buf
}

/// The request that a payload stands for.
pub fn decode_request(payload: &[u8]) -> (req: Result<Request, IoError>)
    ensures
        match parse_call(payload@) {
            Ok(call) => req matches Ok(r) && r@ == call,
            Err(fault) => req matches Err(e) && fault.reported(e),
        },
{
    let all: usize = payload.len();
    let mut cur = Cursor::new(payload);
    let opb = cur.read_exact(1)?;
    let op = match Op::from_u8(opb[0]) {
        Some(op) => op,
        None => return Err(IoError::new(IoErrorKind::InvalidData, "unknown opcode")),
    };
    let ghost args = cur.rest();
    proof {
        assert(op.code() == payload@[0]);
        law_opcodes_distinct(op, choose|o: Op| #[trigger] o.code() == payload@[0]);
        assert(parse_call(payload@) == parse_args(op, args));
        if args.len() >= 16 {
            assert(args.skip(8).take(8) =~= args.subrange(8, 16));
        }
        if args.len() >= 24 {
            assert(args.skip(8).skip(8).take(8) =~= args.subrange(16, 24));
        }
    }
    Ok(
        match op {
            Op::Init => Request::Init,
            Op::DeviceGetCount => Request::DeviceGetCount,
            Op::DeviceGetName => Request::DeviceGetName { device: read_i32(&mut cur)? },
            Op::DeviceTotalMem => Request::DeviceTotalMem { device: read_i32(&mut cur)? },
            Op::MemAlloc => Request::MemAlloc { size: read_u64(&mut cur)? },
            Op::MemFree => Request::MemFree { dptr: read_u64(&mut cur)? },
            Op::MemcpyHtoD => {
                let dptr: u64 = read_u64(&mut cur)?;
                let len: u64 = read_u64(&mut cur)?;
                if len > all as u64 {
                    return Err(IoError::end_of_input());
                }
                let data = cur.read_exact(len as usize)?;
                assert(data@ =~= args.subrange(16, 16 + len));
                Request::MemcpyHtoD { dptr, data }
            },
            Op::MemcpyDtoH => {
                let dptr: u64 = read_u64(&mut cur)?;
                Request::MemcpyDtoH { dptr, size: read_u64(&mut cur)? }
            },
            Op::MemcpyDtoD => {
                let dst: u64 = read_u64(&mut cur)?;
                let src: u64 = read_u64(&mut cur)?;
                Request::MemcpyDtoD { dst, src, size: read_u64(&mut cur)? }
            },
            Op::DeviceSynchronize => Request::DeviceSynchronize,
        },
    )
}

/// The payload of a response.
pub fn encode_response(resp: &Response) -> (buf: Vec<u8>)
    ensures
        buf@ == resp@.payload(),
{
    let mut buf: Vec<u8> = Vec::new();
    write_i32(&mut buf, resp.status);
    buf.extend_from_slice(resp.data.as_slice());
    assert(buf@ =~= resp@.payload());
    buf
}

/// The response that a payload stands for.
pub fn decode_response(payload: &[u8]) -> (resp: Result<Response, IoError>)
    ensures
        match parse_reply(payload@) {
            Ok(reply) => resp matches Ok(r) && r@ == reply,
            Err(fault) => resp matches Err(e) && fault.reported(e),
        },
{
    let mut cur = Cursor::new(payload);
    let status: i32 = read_i32(&mut cur)?;
    let data = cur.read_to_end();
    Ok(Response { status, data })
}

/// A frame as it travels: the length of the payload, then the payload.
pub open spec fn frame(payload: Seq<u8>) -> Seq<u8> {
    bytes::le_bytes(payload.len(), 4) + payload
}

/// The `u64` argument at its place.
proof fn lemma_word(before: Seq<u8>, v: u64, after: Seq<u8>, i: int)
    requires
        before.len() == 8 * i,
    ensures
        word(before + bytes::le_bytes(v as nat, 8) + after, i) == v,
{
    broadcast use bytes::lemma_le_bytes_len;

    bytes::lemma_pow256();
    bytes::law_value_of_bytes(v as nat, 8);
    assert((before + bytes::le_bytes(v as nat, 8) + after).subrange(8 * i, 8 * i + 8)
        =~= bytes::le_bytes(v as nat, 8));
}

/// The `i32` argument at its place.
proof fn lemma_small(v: i32, after: Seq<u8>)
    ensures
        small(bytes::le_bytes(bytes::i32_bits(v), 4) + after) == v,
{
    broadcast use bytes::lemma_le_bytes_len;

    bytes::lemma_pow256();
    bytes::law_i32_bits(v);
    bytes::law_value_of_bytes(bytes::i32_bits(v), 4);
    assert((bytes::le_bytes(bytes::i32_bits(v), 4) + after).take(4) =~= bytes::le_bytes(
        bytes::i32_bits(v),
        4,
    ));
}

/// A number that was written as four bytes is read back from them.
pub proof fn law_count_of_bytes(v: i32)
    ensures
        small(bytes::le_bytes(bytes::i32_bits(v), 4)) == v,
        bytes::le_bytes(bytes::i32_bits(v), 4).len() == 4,
{
    broadcast use bytes::lemma_le_bytes_len;

    lemma_small(v, Seq::empty());
    assert(bytes::le_bytes(bytes::i32_bits(v), 4) + Seq::<u8>::empty() =~= bytes::le_bytes(
        bytes::i32_bits(v),
        4,
    ));
}

/// A number that was written as eight bytes is read back from them.
pub proof fn law_word_of_bytes(v: u64)
    ensures
        word(bytes::le_bytes(v as nat, 8), 0) == v,
        bytes::le_bytes(v as nat, 8).len() == 8,
{
    broadcast use bytes::lemma_le_bytes_len;

    let none = Seq::<u8>::empty();
    lemma_word(none, v, none, 0);
    assert(none + bytes::le_bytes(v as nat, 8) + none =~= bytes::le_bytes(v as nat, 8));
}

/// The arguments at the head of `args` are those of `call`.
proof fn lemma_args(call: Call, trailing: Seq<u8>)
    requires
        call.fits(),
    ensures
        parse_args(call.op(), call.args() + trailing) == Ok::<Call, Fault>(call),
{
    broadcast use bytes::lemma_le_bytes_len;

    let none = Seq::<u8>::empty();
    let args = call.args() + trailing;
    match call {
        Call::Init | Call::DeviceGetCount | Call::DeviceSynchronize => {},
        Call::DeviceGetName { device } | Call::DeviceTotalMem { device } => {
            lemma_small(device, trailing);
        },
        Call::MemAlloc { size: v } | Call::MemFree { dptr: v } => {
            lemma_word(none, v, trailing, 0);
            assert(none + bytes::le_bytes(v as nat, 8) + trailing =~= args);
        },
        Call::MemcpyHtoD { dptr, data } => {
            let len = data.len() as u64;
            let first = bytes::le_bytes(dptr as nat, 8);
            let second = bytes::le_bytes(len as nat, 8);
            lemma_word(none, dptr, second + data + trailing, 0);
            assert(none + first + (second + data + trailing) =~= args);
            lemma_word(first, len, data + trailing, 1);
            assert(first + second + (data + trailing) =~= args);
            assert(args.subrange(16, 16 + data.len() as int) =~= data);
        },
        Call::MemcpyDtoH { dptr, size } => {
            let first = bytes::le_bytes(dptr as nat, 8);
            let second = bytes::le_bytes(size as nat, 8);
            lemma_word(none, dptr, second + trailing, 0);
            assert(none + first + (second + trailing) =~= args);
            lemma_word(first, size, trailing, 1);
            assert(first + second + trailing =~= args);
        },
        Call::MemcpyDtoD { dst, src, size } => {
            let first = bytes::le_bytes(dst as nat, 8);
            let second = bytes::le_bytes(src as nat, 8);
            let third = bytes::le_bytes(size as nat, 8);
            lemma_word(none, dst, second + third + trailing, 0);
            assert(none + first + (second + third + trailing) =~= args);
            lemma_word(first, src, third + trailing, 1);
            assert(first + second + (third + trailing) =~= args);
            lemma_word(first + second, size, trailing, 2);
            assert((first + second) + third + trailing =~= args);
        },
    }
}

/// Decoding an encoded request gives the request back, whatever follows it.
pub proof fn law_request_round_trip(call: Call, trailing: Seq<u8>)
    requires
        call.fits(),
    ensures
        parse_call(call.payload() + trailing) == Ok::<Call, Fault>(call),
{
    let payload = call.payload() + trailing;
    assert(call.op().code() == payload[0]);
    law_opcodes_distinct(call.op(), choose|op: Op| #[trigger] op.code() == payload[0]);
    assert(payload.skip(1) =~= call.args() + trailing);
    lemma_args(call, trailing);
}

/// Two requests with one payload are one request.
pub proof fn law_payload_determines_request(a: Call, b: Call)
    requires
        a.fits(),
        b.fits(),
        a.payload() == b.payload(),
    ensures
        a == b,
{
    law_request_round_trip(a, Seq::empty());
    law_request_round_trip(b, Seq::empty());
}

/// The `u64` argument of which these are the bytes.
proof fn lemma_word_bytes(args: Seq<u8>, i: int)
    requires
        0 <= i,
        8 * i + 8 <= args.len(),
    ensures
        bytes::le_bytes(word(args, i) as nat, 8) == args.subrange(8 * i, 8 * i + 8),
{
    let s = args.subrange(8 * i, 8 * i + 8);
    bytes::lemma_le_value_bound(s);
    bytes::lemma_pow256();
    bytes::law_bytes_of_value(s);
}

/// The `i32` argument of which these are the bytes.
proof fn lemma_small_bytes(args: Seq<u8>)
    requires
        4 <= args.len(),
    ensures
        bytes::le_bytes(bytes::i32_bits(small(args)), 4) == args.take(4),
{
    bytes::lemma_le_value_bound(args.take(4));
    bytes::lemma_pow256();
    bytes::law_bytes_of_value(args.take(4));
}

/// A payload that decodes to a request begins with the encoding of that
/// request.
pub proof fn law_decoded_request_was_encoded(payload: Seq<u8>, call: Call)
    requires
        parse_call(payload) == Ok::<Call, Fault>(call),
    ensures
        call.fits(),
        call.payload().is_prefix_of(payload),
{
    let args = payload.skip(1);
    let op = choose|op: Op| #[trigger] op.code() == payload[0];
    assert(parse_args(op, args) == Ok::<Call, Fault>(call));
    assert(call.op() == op);
    match call {
        Call::Init | Call::DeviceGetCount | Call::DeviceSynchronize => {},
        Call::DeviceGetName { .. } | Call::DeviceTotalMem { .. } => lemma_small_bytes(args),
        Call::MemAlloc { .. } | Call::MemFree { .. } => lemma_word_bytes(args, 0),
        Call::MemcpyHtoD { .. } | Call::MemcpyDtoH { .. } => {
            lemma_word_bytes(args, 0);
            lemma_word_bytes(args, 1);
        },
        Call::MemcpyDtoD { .. } => {
            lemma_word_bytes(args, 0);
            lemma_word_bytes(args, 1);
            lemma_word_bytes(args, 2);
        },
    }
    assert(call.args() =~= args.take(call.args().len() as int));
    assert(call.payload() =~= payload.take(call.payload().len() as int));
}

/// Decoding an encoded response gives the response back.
pub proof fn law_response_round_trip(reply: Reply)
    ensures
        parse_reply(reply.payload()) == Ok::<Reply, Fault>(reply),
{
    broadcast use bytes::lemma_le_bytes_len;

    lemma_small(reply.status, reply.data);
    assert(reply.payload().skip(4) =~= reply.data);
}

/// Encoding a decoded response gives the payload back.
pub proof fn law_decoded_response_was_encoded(payload: Seq<u8>, reply: Reply)
    requires
        parse_reply(payload) == Ok::<Reply, Fault>(reply),
    ensures
        reply.payload() == payload,
{
    lemma_small_bytes(payload);
    assert(reply.payload() =~= payload);
}

/// A message that was written without a failure has gone out as one frame,
/// whose length field is the length of the message.
pub proof fn law_frame_is_sent(steps: Seq<Step>, payload: Seq<u8>)
    requires
        writes_msg(steps, payload, Ok(())),
    ensures
        bytes::le_value(frame(payload).take(4)) == payload.len(),
        frame(payload).skip(4) == payload,
        stream::sent(steps) == frame(payload),
{
    broadcast use bytes::lemma_le_bytes_len;

    bytes::lemma_pow256();
    bytes::law_value_of_bytes(payload.len(), 4);
    assert(frame(payload).take(4) =~= bytes::le_bytes(payload.len(), 4));
    assert(frame(payload).skip(4) =~= payload);
    reveal_with_fuel(stream::sent, 4);
    assert(steps.drop_last().last() == steps[1]);
    assert(steps.drop_last().drop_last().last() == steps[0]);
    assert(stream::sent(steps) =~= frame(payload));
}

/// Reading from a stream that delivers what was written of a message, and
/// whatever after it, takes exactly that frame off the stream and gives the
/// message back. A message over the limit is refused when only its length was
/// read.
pub proof fn law_frame_is_received(
    written: Seq<Step>,
    steps: Seq<Step>,
    payload: Seq<u8>,
    trailing: Seq<u8>,
    res: Result<Seq<u8>, IoError>,
)
    requires
        writes_msg(written, payload, Ok(())),
        reads_msg(steps, res),
        forall|i: int|
            0 <= i < steps.len() ==> steps[i].outcome is Ok && stream::is_proper(
                #[trigger] steps[i],
            ),
        stream::received(steps).is_prefix_of(stream::sent(written) + trailing),
    ensures
        payload.len() <= MAX_MSG ==> res == Ok::<Seq<u8>, IoError>(payload)
            && stream::received(steps) == frame(payload),
        payload.len() > MAX_MSG ==> {
            &&& stream::received(steps) == frame(payload).take(4)
            &&& res matches Err(e) && e.says(IoErrorKind::InvalidData, "frame too large"@)
        },
{
    broadcast use bytes::lemma_le_bytes_len;

    law_frame_is_sent(written, payload);
    reveal_with_fuel(stream::received, 3);
    let head = bytes::le_bytes(payload.len(), 4);
    let got = stream::received(steps);
    assert(stream::is_proper(steps[0]));
    let header = steps[0].outcome->Ok_0;
    if steps.len() == 2 {
        assert(steps.drop_last().last() == steps[0]);
    }
    assert(got.take(4) =~= header);
    assert((frame(payload) + trailing).take(4) =~= head);
    assert(header == head);
    bytes::lemma_pow256();
    bytes::law_value_of_bytes(payload.len(), 4);
    assert(frame(payload).take(4) =~= head);
    if payload.len() <= MAX_MSG {
        assert(stream::is_proper(steps[1]));
        let body = steps[1].outcome->Ok_0;
        assert(got =~= header + body);
        assert(got =~= (frame(payload) + trailing).take(got.len() as int));
        assert(body =~= got.skip(4));
        assert(body =~= payload);
    } else {
        assert(got =~= header);
    }
}

} // verus!
