//! The bytes of the protocol, byte by byte: where each field of a message
//! stands, and what becomes of bytes that are no message.

use crate::bytes;
use crate::client;
use crate::client::HipRpcError;
use crate::host::Answer;
use crate::proto;
use crate::proto::{Call, Fault, Reply};
use crate::stream;
use crate::stream::{Asked, IoError, IoErrorKind, Step};
use crate::text;
use vstd::prelude::*;

verus! {

/// The unsigned 32-bit number at `at`, its lowest byte first.
pub open spec fn u32_in(b: Seq<u8>, at: int) -> int {
    b[at] + 0x100 * b[at + 1] + 0x1_0000 * b[at + 2] + 0x100_0000 * b[at + 3]
}

/// The unsigned 64-bit number at `at`, its lowest byte first.
pub open spec fn u64_in(b: Seq<u8>, at: int) -> int {
    u32_in(b, at) + 0x1_0000_0000 * u32_in(b, at + 4)
}

/// The signed 32-bit number at `at`: the highest bit counts as negative.
pub open spec fn i32_in(b: Seq<u8>, at: int) -> int {
    u32_in(b, at) - if b[at + 3] >= 0x80 {
        0x1_0000_0000
    } else {
        0int
    }
}

/// A number takes as many bytes as it was given, and its lowest byte stands
/// first.
pub proof fn law_numbers_are_little_endian(v: nat)
    ensures
        bytes::le_bytes(v, 4).len() == 4,
        bytes::le_bytes(v, 8).len() == 8,
        v < 0x1_0000_0000 ==> u32_in(bytes::le_bytes(v, 4), 0) == v,
        v < 0x1_0000_0000_0000_0000 ==> u64_in(bytes::le_bytes(v, 8), 0) == v,
{
    bytes::lemma_le_bytes_len(v, 4);
    bytes::lemma_le_bytes_len(v, 8);
    bytes::lemma_pow256();
    if v < 0x1_0000_0000 {
        bytes::law_value_of_bytes(v, 4);
        law_values_of_bytes(bytes::le_bytes(v, 4));
    }
    if v < 0x1_0000_0000_0000_0000 {
        bytes::law_value_of_bytes(v, 8);
        law_values_of_bytes(bytes::le_bytes(v, 8));
    }
}

/// Four bytes, or eight, are the number whose lowest byte stands first.
pub proof fn law_values_of_bytes(s: Seq<u8>)
    ensures
        s.len() == 4 ==> bytes::le_value(s) == u32_in(s, 0),
        s.len() == 8 ==> bytes::le_value(s) == u64_in(s, 0),
{
    if s.len() == 4 {
        lemma_four(s);
    }
    if s.len() == 8 {
        let s4 = s.skip(1).skip(1).skip(1).skip(1);
        reveal_with_fuel(bytes::le_value, 5);
        lemma_four(s4);
        assert(s.skip(1)[0] == s[1]);
        assert(s.skip(1).skip(1)[0] == s[2]);
        assert(s.skip(1).skip(1).skip(1)[0] == s[3]);
        assert(s4[0] == s[4] && s4[1] == s[5] && s4[2] == s[6] && s4[3] == s[7]);
    }
}

/// Four bytes are the number whose lowest byte stands first.
proof fn lemma_four(s: Seq<u8>)
    requires
        s.len() == 4,
    ensures
        bytes::le_value(s) == u32_in(s, 0),
{
    reveal_with_fuel(bytes::le_value, 5);
    assert(s.skip(1)[0] == s[1]);
    assert(s.skip(1).skip(1)[0] == s[2]);
    assert(s.skip(1).skip(1).skip(1)[0] == s[3]);
}

/// The signed number in the first four bytes.
proof fn lemma_small_is_i32(s: Seq<u8>)
    requires
        s.len() >= 4,
    ensures
        proto::small(s) == i32_in(s, 0),
{
    let t = s.take(4);
    lemma_four(t);
    assert(t[0] == s[0] && t[1] == s[1] && t[2] == s[2] && t[3] == s[3]);
}

/// The `i`th unsigned number.
pub(crate) proof fn lemma_word_is_u64(s: Seq<u8>, i: int)
    requires
        0 <= i,
        8 * i + 8 <= s.len(),
    ensures
        proto::word(s, i) == u64_in(s, 8 * i),
{
    let t = s.subrange(8 * i, 8 * i + 8);
    law_values_of_bytes(t);
    let at = 8 * i;
    assert(t[0] == s[at] && t[1] == s[at + 1] && t[2] == s[at + 2] && t[3] == s[at + 3]);
    assert(t[4] == s[at + 4] && t[5] == s[at + 5] && t[6] == s[at + 6] && t[7] == s[at + 7]);
}

/// A signed number is written in two's complement, and is read so.
pub proof fn law_signed_numbers(v: i32, s: Seq<u8>)
    requires
        s.len() >= 4,
    ensures
        bytes::le_bytes(bytes::i32_bits(v), 4).len() == 4,
        i32_in(bytes::le_bytes(bytes::i32_bits(v), 4), 0) == v,
        proto::small(s) == i32_in(s, 0),
{
    proto::law_count_of_bytes(v);
    lemma_small_is_i32(bytes::le_bytes(bytes::i32_bits(v), 4));
    lemma_small_is_i32(s);
}

/// A request is its opcode, and behind it its arguments, each at its place.
pub proof fn law_layout_of_requests(call: Call)
    requires
        call.fits(),
    ensures
        ({
            let p = call.payload();
            match call {
                Call::Init => p == seq![0x01u8],
                Call::DeviceGetCount => p == seq![0x02u8],
                Call::DeviceGetName { device } => {
                    p.len() == 5 && p[0] == 0x03 && i32_in(p, 1) == device
                },
                Call::DeviceTotalMem { device } => {
                    p.len() == 5 && p[0] == 0x04 && i32_in(p, 1) == device
                },
                Call::MemAlloc { size } => p.len() == 9 && p[0] == 0x10 && u64_in(p, 1) == size,
                Call::MemFree { dptr } => p.len() == 9 && p[0] == 0x11 && u64_in(p, 1) == dptr,
                Call::MemcpyHtoD { dptr, data } => {
                    &&& p.len() == 17 + data.len()
                    &&& p[0] == 0x12
                    &&& u64_in(p, 1) == dptr
                    &&& u64_in(p, 9) == data.len()
                    &&& p.skip(17) == data
                },
                Call::MemcpyDtoH { dptr, size } => {
                    p.len() == 17 && p[0] == 0x13 && u64_in(p, 1) == dptr && u64_in(p, 9) == size
                },
                Call::MemcpyDtoD { dst, src, size } => {
                    &&& p.len() == 25
                    &&& p[0] == 0x14
                    &&& u64_in(p, 1) == dst
                    &&& u64_in(p, 9) == src
                    &&& u64_in(p, 17) == size
                },
                Call::DeviceSynchronize => p == seq![0x20u8],
            }
        }),
{
    broadcast use bytes::lemma_le_bytes_len;

    let p = call.payload();
    let args = call.args();
    assert(p.skip(1) =~= args);
    assert(args + Seq::<u8>::empty() =~= args);
    proto::law_request_round_trip(call, Seq::empty());
    assert(p + Seq::<u8>::empty() =~= p);
    proto::law_opcodes_distinct(call.op(), choose|op: proto::Op| #[trigger] op.code() == p[0]);
    assert(forall|i: int| 0 <= i < args.len() ==> p[i + 1] == #[trigger] args[i]);
    match call {
        Call::Init | Call::DeviceGetCount | Call::DeviceSynchronize => {
            assert(p.len() == 1);
        },
        Call::DeviceGetName { .. } | Call::DeviceTotalMem { .. } => {
            lemma_small_is_i32(args);
            assert(i32_in(p, 1) == i32_in(args, 0));
        },
        Call::MemAlloc { .. } | Call::MemFree { .. } => {
            lemma_word_is_u64(args, 0);
            assert(u64_in(p, 1) == u64_in(args, 0));
        },
        Call::MemcpyHtoD { data, .. } => {
            lemma_word_is_u64(args, 0);
            lemma_word_is_u64(args, 1);
            assert(u64_in(p, 1) == u64_in(args, 0));
            assert(u64_in(p, 9) == u64_in(args, 8));
            assert(p.skip(17) =~= data);
        },
        Call::MemcpyDtoH { .. } => {
            lemma_word_is_u64(args, 0);
            lemma_word_is_u64(args, 1);
            assert(u64_in(p, 1) == u64_in(args, 0));
            assert(u64_in(p, 9) == u64_in(args, 8));
        },
        Call::MemcpyDtoD { .. } => {
            lemma_word_is_u64(args, 0);
            lemma_word_is_u64(args, 1);
            lemma_word_is_u64(args, 2);
            assert(u64_in(p, 1) == u64_in(args, 0));
            assert(u64_in(p, 9) == u64_in(args, 8));
            assert(u64_in(p, 17) == u64_in(args, 16));
        },
    }
}

/// Bytes from which no request can be read are refused for one of two reasons:
/// there is a first byte and it is no opcode, or else they end too early.
pub proof fn law_what_is_no_request(payload: Seq<u8>)
    ensures
        proto::parse_call(payload) is Ok <==> exists|call: Call|
            call.fits() && (#[trigger] call.payload()).is_prefix_of(payload),
        proto::parse_call(payload) == Err::<Call, Fault>(Fault::UnknownOpcode) <==> {
            &&& payload.len() > 0
            &&& !(0x01 <= payload[0] <= 0x04)
            &&& !(0x10 <= payload[0] <= 0x14)
            &&& payload[0] != 0x20
        },
{
    if let Ok(call) = proto::parse_call(payload) {
        proto::law_decoded_request_was_encoded(payload, call);
    }
    if exists|call: Call| call.fits() && (#[trigger] call.payload()).is_prefix_of(payload) {
        let call = choose|call: Call|
            call.fits() && (#[trigger] call.payload()).is_prefix_of(payload);
        proto::law_request_round_trip(call, payload.skip(call.payload().len() as int));
        assert(call.payload() + payload.skip(call.payload().len() as int) =~= payload);
    }
    if payload.len() > 0 {
        let b = payload[0];
        if 0x01 <= b <= 0x04 || 0x10 <= b <= 0x14 || b == 0x20 {
            let op = if b == 0x01 {
                proto::Op::Init
            } else if b == 0x02 {
                proto::Op::DeviceGetCount
            } else if b == 0x03 {
                proto::Op::DeviceGetName
            } else if b == 0x04 {
                proto::Op::DeviceTotalMem
            } else if b == 0x10 {
                proto::Op::MemAlloc
            } else if b == 0x11 {
                proto::Op::MemFree
            } else if b == 0x12 {
                proto::Op::MemcpyHtoD
            } else if b == 0x13 {
                proto::Op::MemcpyDtoH
            } else if b == 0x14 {
                proto::Op::MemcpyDtoD
            } else {
                proto::Op::DeviceSynchronize
            };
            assert(op.code() == b);
        }
    }
}

/// No request can be read from a part of its payload.
pub proof fn law_part_of_a_request_is_truncated(call: Call, n: int)
    requires
        call.fits(),
        0 <= n < call.payload().len(),
    ensures
        proto::parse_call(call.payload().take(n)) == Err::<Call, Fault>(Fault::Truncated),
{
    let whole = call.payload();
    let part = whole.take(n);
    law_what_is_no_request(part);
    law_layout_of_requests(call);
    if let Ok(other) = proto::parse_call(part) {
        proto::law_decoded_request_was_encoded(part, other);
        let rest = whole.skip(other.payload().len() as int);
        proto::law_request_round_trip(other, rest);
        assert(other.payload() + rest =~= whole);
        proto::law_request_round_trip(call, Seq::empty());
        assert(whole + Seq::<u8>::empty() =~= whole);
    }
}

/// A response is its status in four bytes, and behind it its data. Every payload
/// of four bytes or more is one.
pub proof fn law_layout_of_responses(payload: Seq<u8>, reply: Reply)
    ensures
        reply.payload().len() == 4 + reply.data.len(),
        i32_in(reply.payload(), 0) == reply.status,
        reply.payload().skip(4) == reply.data,
        proto::parse_reply(payload) is Ok <==> payload.len() >= 4,
        proto::parse_reply(payload) matches Ok(r) ==> r.status == i32_in(payload, 0) && r.data
            == payload.skip(4),
{
    broadcast use bytes::lemma_le_bytes_len;

    proto::law_response_round_trip(reply);
    lemma_small_is_i32(reply.payload());
    assert(reply.payload().skip(4) =~= reply.data);
    if payload.len() >= 4 {
        lemma_small_is_i32(payload);
    }
}

/// The reply to a call carries its result: status 0 and the result in its data,
/// or the error as its status and no data.
pub proof fn law_layout_of_replies(answer: Answer)
    ensures
        ({
            let p = answer.reply().payload();
            match answer {
                Answer::Done(Ok(_)) => p.len() == 4 && i32_in(p, 0) == 0,
                Answer::Count(Ok(n)) => p.len() == 8 && i32_in(p, 0) == 0 && i32_in(p, 4) == n,
                Answer::Name(Ok(name)) => i32_in(p, 0) == 0 && p.skip(4)
                    == vstd::utf8::encode_utf8(name),
                Answer::Word(Ok(w)) => p.len() == 12 && i32_in(p, 0) == 0 && u64_in(p, 4) == w,
                Answer::Data(Ok(data)) => i32_in(p, 0) == 0 && p.skip(4) == data,
                Answer::Done(Err(e)) => p.len() == 4 && i32_in(p, 0) == e,
                Answer::Count(Err(e)) => p.len() == 4 && i32_in(p, 0) == e,
                Answer::Name(Err(e)) => p.len() == 4 && i32_in(p, 0) == e,
                Answer::Word(Err(e)) => p.len() == 4 && i32_in(p, 0) == e,
                Answer::Data(Err(e)) => p.len() == 4 && i32_in(p, 0) == e,
            }
        }),
{
    let reply = answer.reply();
    let p = reply.payload();
    law_layout_of_responses(p, reply);
    assert(forall|i: int| 0 <= i < reply.data.len() ==> #[trigger] reply.data[i] == p[i + 4]);
    if let Answer::Count(Ok(n)) = answer {
        law_signed_numbers(n, p);
        assert(i32_in(p, 4) == i32_in(reply.data, 0));
    }
    if let Answer::Word(Ok(w)) = answer {
        law_numbers_are_little_endian(w as nat);
        assert(u64_in(p, 4) == u64_in(reply.data, 0));
    }
}

/// Writing a message writes the length of its payload in four bytes, then the
/// payload, then flushes, and stops at the first failure, which it reports. All
/// of it is done where nothing fails. Only a payload of more than 0xffff_ffff
/// bytes is refused, before anything is written.
pub proof fn law_message_goes_out(steps: Seq<Step>, payload: Seq<u8>, res: Result<(), IoError>)
    requires
        proto::writes_msg(steps, payload, res),
    ensures
        payload.len() > 0xffff_ffff ==> {
            &&& steps.len() == 0
            &&& res matches Err(e) && e.says(IoErrorKind::InvalidInput, "frame too large"@)
        },
        payload.len() <= 0xffff_ffff ==> {
            &&& 1 <= steps.len() <= 3
            &&& steps[0].asked matches Asked::WriteAll(head) && head.len() == 4 && u32_in(head, 0)
                == payload.len()
            &&& steps.len() >= 2 ==> steps[1].asked == Asked::WriteAll(payload)
            &&& steps.len() >= 3 ==> steps[2].asked is Flush
            &&& forall|i: int| 0 <= i < steps.len() - 1 ==> (#[trigger] steps[i]).outcome is Ok
            &&& steps.last().outcome is Ok ==> steps.len() == 3 && res is Ok
            &&& steps.last().outcome matches Err(e) ==> res == Err::<(), IoError>(e)
        },
{
    law_numbers_are_little_endian(payload.len());
}

/// A message that was written is on the stream as its length in four bytes and
/// its payload.
pub proof fn law_bytes_of_a_frame(steps: Seq<Step>, payload: Seq<u8>)
    requires
        proto::writes_msg(steps, payload, Ok(())),
    ensures
        stream::sent(steps).len() == 4 + payload.len(),
        u32_in(stream::sent(steps), 0) == payload.len(),
        stream::sent(steps).skip(4) == payload,
{
    broadcast use bytes::lemma_le_bytes_len;

    proto::law_frame_is_sent(steps, payload);
    let sent = stream::sent(steps);
    law_values_of_bytes(sent.take(4));
    assert(u32_in(sent, 0) == u32_in(sent.take(4), 0));
}

/// Reading a message reads four bytes, which are the length of the payload, and
/// then that many; a length of more than 0x1000_0000 is refused before anything
/// more is read. A read that fails ends it and is what it reports.
pub proof fn law_message_comes_in(steps: Seq<Step>, res: Result<Seq<u8>, IoError>)
    requires
        proto::reads_msg(steps, res),
        forall|i: int| 0 <= i < steps.len() ==> stream::is_proper(#[trigger] steps[i]),
    ensures
        1 <= steps.len() <= 2,
        steps[0].asked == Asked::ReadExact(4),
        forall|i: int| 0 <= i < steps.len() - 1 ==> (#[trigger] steps[i]).outcome is Ok,
        steps.last().outcome matches Err(e) ==> res == Err::<Seq<u8>, IoError>(e),
        steps[0].outcome matches Ok(head) ==> {
            &&& head.len() == 4
            &&& u32_in(head, 0) > 0x1000_0000 ==> steps.len() == 1 && (res matches Err(e)
                && e.says(IoErrorKind::InvalidData, "frame too large"@))
            &&& u32_in(head, 0) <= 0x1000_0000 ==> {
                &&& steps.len() == 2
                &&& steps[1].asked == Asked::ReadExact(u32_in(head, 0) as nat)
                &&& steps[1].outcome matches Ok(payload) ==> res == Ok::<Seq<u8>, IoError>(payload)
                    && payload.len() == u32_in(head, 0)
            }
        },
{
    assert(stream::is_proper(steps[0]));
    if let Ok(head) = steps[0].outcome {
        law_values_of_bytes(head);
    }
    if steps.len() == 2 {
        assert(stream::is_proper(steps[1]));
    }
}

/// A response of less than four bytes is malformed. One whose status is not 0 is
/// that error of the host, whatever its data. Any other gives its data, all of
/// it.
pub proof fn law_what_a_response_means(payload: Seq<u8>, res: Result<Seq<u8>, HipRpcError>)
    requires
        client::means(payload, res),
    ensures
        payload.len() < 4 ==> (res matches Err(HipRpcError::Protocol(m)) && m@
            == "malformed response"@),
        payload.len() >= 4 && i32_in(payload, 0) != 0 ==> (res matches Err(HipRpcError::Hip(e)) && e
            == i32_in(payload, 0)),
        payload.len() >= 4 && i32_in(payload, 0) == 0 ==> res == Ok::<Seq<u8>, HipRpcError>(
            payload.skip(4),
        ),
{
    if payload.len() >= 4 {
        lemma_small_is_i32(payload);
    }
}

/// What the data of a reply is to the caller: a count is in its first four
/// bytes, a 64-bit number in its first eight, whatever follows; data that is too
/// short is an error of the protocol; the name is the text of all of it; where
/// nothing is to be told, it does not matter.
pub proof fn law_what_the_data_means(
    data: Seq<u8>,
    short: Seq<char>,
    unit: Result<(), HipRpcError>,
    count: Result<i32, HipRpcError>,
    word: Result<u64, HipRpcError>,
    name: Result<String, HipRpcError>,
)
    requires
        client::as_unit(Ok(data), unit),
        client::as_count(Ok(data), count),
        client::as_word(Ok(data), short, word),
        client::as_text(Ok(data), name),
    ensures
        unit == Ok::<(), HipRpcError>(()),
        data.len() < 4 ==> (count matches Err(HipRpcError::Protocol(m)) && m@
            == "short DeviceGetCount reply"@),
        data.len() >= 4 ==> (count matches Ok(n) && n == i32_in(data, 0)),
        data.len() < 8 ==> (word matches Err(HipRpcError::Protocol(m)) && m@ == short),
        data.len() >= 8 ==> (word matches Ok(w) && w == u64_in(data, 0)),
        vstd::utf8::valid_utf8(data) ==> (name matches Ok(s) && vstd::utf8::encode_utf8(s@)
            == data),
        !vstd::utf8::valid_utf8(data) ==> (name matches Ok(s) && s@ == text::repaired(data)),
{
    if data.len() >= 4 {
        lemma_small_is_i32(data);
    }
    if data.len() >= 8 {
        lemma_word_is_u64(data, 0);
    }
    if vstd::utf8::valid_utf8(data) {
        vstd::utf8::decode_utf8_encode_utf8(data);
    }
}

/// A call that failed fails with that error for every caller.
pub proof fn law_errors_are_passed_on(
    e: HipRpcError,
    short: Seq<char>,
    unit: Result<(), HipRpcError>,
    count: Result<i32, HipRpcError>,
    word: Result<u64, HipRpcError>,
    name: Result<String, HipRpcError>,
)
    requires
        client::as_unit(Err(e), unit),
        client::as_count(Err(e), count),
        client::as_word(Err(e), short, word),
        client::as_text(Err(e), name),
    ensures
        unit == Err::<(), HipRpcError>(e),
        count == Err::<i32, HipRpcError>(e),
        word == Err::<u64, HipRpcError>(e),
        name == Err::<String, HipRpcError>(e),
{
}

/// The first step of a round-trip that fails ends it, and its error is the error
/// of the call. Where none fails, the call fails as an I/O error only for a
/// frame that is too large.
pub proof fn law_failure_of_the_stream_is_reported(
    steps: Seq<Step>,
    call: Call,
    res: Result<Seq<u8>, HipRpcError>,
)
    requires
        client::exchanged(steps, call, res),
        forall|i: int| 0 <= i < steps.len() ==> stream::is_proper(#[trigger] steps[i]),
    ensures
        forall|i: int|
            0 <= i < steps.len() ==> ((#[trigger] steps[i]).outcome matches Err(e) ==> i
                == steps.len() - 1 && res == Err::<Seq<u8>, HipRpcError>(HipRpcError::Io(e))),
        stream::all_went_well(steps) ==> (res matches Err(HipRpcError::Io(e)) ==> e.message@
            == "frame too large"@),
        stream::all_went_well(steps) && steps.len() > 0 ==> steps.len() >= 4,
{
    if exists|e: IoError|
        #![trigger proto::writes_msg(steps, call.payload(), Err(e))]
        proto::writes_msg(steps, call.payload(), Err(e)) && res == Err::<Seq<u8>, HipRpcError>(
            HipRpcError::Io(e),
        ) {
        let e = choose|e: IoError|
            #![trigger proto::writes_msg(steps, call.payload(), Err(e))]
            proto::writes_msg(steps, call.payload(), Err(e)) && res == Err::<Seq<u8>, HipRpcError>(
                HipRpcError::Io(e),
            );
        law_message_goes_out(steps, call.payload(), Err(e));
        if steps.len() > 0 {
            assert(steps[steps.len() - 1].outcome is Err);
        }
    } else {
        let out = steps.take(3);
        let back = steps.skip(3);
        let msg = choose|msg: Result<Seq<u8>, IoError>| #[trigger]
            proto::reads_msg(back, msg) && match msg {
                Err(e) => res == Err::<Seq<u8>, HipRpcError>(HipRpcError::Io(e)),
                Ok(payload) => client::means(payload, res),
            };
        law_message_goes_out(out, call.payload(), Ok(()));
        assert forall|i: int| 0 <= i < back.len() implies stream::is_proper(#[trigger] back[i]) by {
            assert(back[i] == steps[i + 3]);
        }
        law_message_comes_in(back, msg);
        assert(steps.last() == back.last());
        assert forall|i: int| 0 <= i < steps.len() - 1 implies (#[trigger] steps[i]).outcome
            is Ok by {
            if i < 3 {
                assert(steps[i] == out[i]);
            } else {
                assert(steps[i] == back[i - 3]);
            }
        }
        assert(steps[steps.len() - 1] == back[back.len() - 1]);
    }
}

/// What a call does on its stream: it writes the length of its request in four
/// bytes, then its request, flushes, and reads the four bytes of a length and a
/// response of that length, of which it makes its result. It ends early only
/// where a step fails or the length read is too large.
pub proof fn law_call_on_its_stream(
    steps: Seq<Step>,
    call: Call,
    res: Result<Seq<u8>, HipRpcError>,
)
    requires
        client::exchanged(steps, call, res),
        call.payload().len() <= 0xffff_ffff,
        forall|i: int| 0 <= i < steps.len() ==> stream::is_proper(#[trigger] steps[i]),
    ensures
        1 <= steps.len() <= 5,
        steps[0].asked matches Asked::WriteAll(head) && head.len() == 4 && u32_in(head, 0)
            == call.payload().len(),
        steps.len() >= 2 ==> steps[1].asked == Asked::WriteAll(call.payload()),
        steps.len() >= 3 ==> steps[2].asked is Flush,
        steps.len() >= 4 ==> steps[3].asked == Asked::ReadExact(4),
        steps.len() >= 5 ==> (steps[3].outcome matches Ok(head) && steps[4].asked
            == Asked::ReadExact(u32_in(head, 0) as nat)),
        steps.len() <= 3 ==> steps.last().outcome is Err,
        steps.len() == 4 ==> (steps[3].outcome matches Ok(head) ==> u32_in(head, 0) > 0x1000_0000),
        steps.len() == 5 ==> (steps[4].outcome matches Ok(response) ==> client::means(
            response,
            res,
        )),
{
    law_failure_of_the_stream_is_reported(steps, call, res);
    if exists|e: IoError|
        #![trigger proto::writes_msg(steps, call.payload(), Err(e))]
        proto::writes_msg(steps, call.payload(), Err(e)) && res == Err::<Seq<u8>, HipRpcError>(
            HipRpcError::Io(e),
        ) {
        let e = choose|e: IoError|
            #![trigger proto::writes_msg(steps, call.payload(), Err(e))]
            proto::writes_msg(steps, call.payload(), Err(e)) && res == Err::<Seq<u8>, HipRpcError>(
                HipRpcError::Io(e),
            );
        law_message_goes_out(steps, call.payload(), Err(e));
    } else {
        let out = steps.take(3);
        let back = steps.skip(3);
        let msg = choose|msg: Result<Seq<u8>, IoError>| #[trigger]
            proto::reads_msg(back, msg) && match msg {
                Err(e) => res == Err::<Seq<u8>, HipRpcError>(HipRpcError::Io(e)),
                Ok(payload) => client::means(payload, res),
            };
        law_message_goes_out(out, call.payload(), Ok(()));
        assert forall|i: int| 0 <= i < back.len() implies stream::is_proper(#[trigger] back[i]) by {
            assert(back[i] == steps[i + 3]);
        }
        law_message_comes_in(back, msg);
        assert(steps[0] == out[0] && steps[1] == out[1] && steps[2] == out[2]);
        assert(steps[3] == back[0]);
        if steps.len() == 5 {
            assert(steps[4] == back[1]);
        }
    }
}

} // verus!
