//! The wire protocol, byte for byte.

use smolvm_hip::bytes::{i32_at, u32_at, u64_at, write_i32, write_u32, write_u64};
use smolvm_hip::proto::{
    decode_request, decode_response, encode_request, encode_response, read_msg, write_msg, Op,
    Request, Response, MAX_MSG,
};
use smolvm_hip::stream::{Action, IoError, IoErrorKind, Stream};
use std::cell::RefCell;

fn requests() -> Vec<(Request, Op, Vec<u8>)> {
    vec![
        (Request::Init, Op::Init, vec![0x01]),
        (Request::DeviceGetCount, Op::DeviceGetCount, vec![0x02]),
        (
            Request::DeviceGetName { device: -2 },
            Op::DeviceGetName,
            vec![0x03, 0xfe, 0xff, 0xff, 0xff],
        ),
        (
            Request::DeviceTotalMem { device: 0x0102_0304 },
            Op::DeviceTotalMem,
            vec![0x04, 4, 3, 2, 1],
        ),
        (
            Request::MemAlloc { size: 0x0102_0304_0506_0708 },
            Op::MemAlloc,
            vec![0x10, 8, 7, 6, 5, 4, 3, 2, 1],
        ),
        (
            Request::MemFree { dptr: u64::MAX },
            Op::MemFree,
            vec![0x11, 255, 255, 255, 255, 255, 255, 255, 255],
        ),
        (
            Request::MemcpyHtoD { dptr: 1, data: vec![9, 8, 7] },
            Op::MemcpyHtoD,
            vec![0x12, 1, 0, 0, 0, 0, 0, 0, 0, 3, 0, 0, 0, 0, 0, 0, 0, 9, 8, 7],
        ),
        (
            Request::MemcpyDtoH { dptr: 2, size: 256 },
            Op::MemcpyDtoH,
            vec![0x13, 2, 0, 0, 0, 0, 0, 0, 0, 0, 1, 0, 0, 0, 0, 0, 0],
        ),
        (
            Request::MemcpyDtoD { dst: 3, src: 4, size: 5 },
            Op::MemcpyDtoD,
            vec![
                0x14, 3, 0, 0, 0, 0, 0, 0, 0, 4, 0, 0, 0, 0, 0, 0, 0, 5, 0, 0, 0, 0, 0, 0, 0,
            ],
        ),
        (Request::DeviceSynchronize, Op::DeviceSynchronize, vec![0x20]),
    ]
}

#[test]
fn requests_have_their_bytes_and_come_back() {
    for (request, op, bytes) in requests() {
        assert_eq!(request.op(), op);
        assert_eq!(op.to_u8(), bytes[0]);
        assert_eq!(Op::from_u8(bytes[0]), Some(op));
        assert_eq!(encode_request(&request), bytes);
        let back = decode_request(&bytes).unwrap();
        assert_eq!(format!("{:?}", back), format!("{:?}", request));
        let mut longer = bytes.clone();
        longer.extend_from_slice(b"trailing");
        let back = decode_request(&longer).unwrap();
        assert_eq!(format!("{:?}", back), format!("{:?}", request));
    }
}

#[test]
fn decoded_payloads_are_encoded_again() {
    let payload = b"\x12\x01\0\0\0\0\0\0\0\x02\0\0\0\0\0\0\0hi, and more";
    let request = decode_request(payload).unwrap();
    assert_eq!(encode_request(&request), &payload[..19]);
    let payload = b"\x07\0\0\x80anything";
    let response = decode_response(payload).unwrap();
    assert_eq!(response.status, -0x7fff_fff9);
    assert_eq!(encode_response(&response), payload);
}

#[test]
fn truncated_requests_are_refused() {
    for (_, _, bytes) in requests() {
        for n in 0..bytes.len() {
            let e = decode_request(&bytes[..n]).unwrap_err();
            assert_eq!(e.kind, IoErrorKind::UnexpectedEof);
            assert_eq!(e.message, "failed to fill whole buffer");
        }
    }
    let mut hostile = vec![0x12];
    hostile.extend_from_slice(&1u64.to_le_bytes());
    hostile.extend_from_slice(&u64::MAX.to_le_bytes());
    assert_eq!(decode_request(&hostile).unwrap_err().kind, IoErrorKind::UnexpectedEof);
}

#[test]
fn unknown_opcodes_are_refused() {
    let known: Vec<u8> = requests().iter().map(|(_, op, _)| op.to_u8()).collect();
    for b in 0..=255u8 {
        if known.contains(&b) {
            continue;
        }
        assert_eq!(Op::from_u8(b), None);
        let e = decode_request(&[b, 0, 0, 0, 0]).unwrap_err();
        assert_eq!(e.kind, IoErrorKind::InvalidData);
        assert_eq!(e.message, "unknown opcode");
    }
}

#[test]
fn responses_have_their_bytes_and_come_back() {
    let response = Response { status: -1, data: vec![1, 2, 3] };
    let bytes = encode_response(&response);
    assert_eq!(bytes, vec![255, 255, 255, 255, 1, 2, 3]);
    let back = decode_response(&bytes).unwrap();
    assert_eq!((back.status, back.data), (-1, vec![1, 2, 3]));
    assert_eq!(encode_response(&Response::default()), vec![0; 4]);
    for n in 0..4 {
        let e = decode_response(&bytes[..n]).unwrap_err();
        assert_eq!(e.kind, IoErrorKind::UnexpectedEof);
    }
}

/// What `write_msg` writes for `payload`.
fn framed(payload: &[u8]) -> Vec<u8> {
    let out = RefCell::new(Vec::new());
    let mut stream = Stream::new(|action: Action| {
        match action {
            Action::WriteAll(bytes) => out.borrow_mut().extend_from_slice(bytes),
            Action::Flush => out.borrow_mut().push(b'!'),
            _ => panic!("nothing is read"),
        }
        Ok(Vec::new())
    });
    write_msg(&mut stream, payload).unwrap();
    out.into_inner()
}

/// What `read_msg` makes of `bytes`, and what it leaves of them.
fn unframed(bytes: &[u8]) -> (Result<Vec<u8>, IoError>, usize) {
    let at = RefCell::new(0);
    let mut stream = Stream::new(|action: Action| match action {
        Action::ReadExact(n) => {
            let start = *at.borrow();
            if start + n > bytes.len() {
                return Err(IoError::end_of_input());
            }
            *at.borrow_mut() += n;
            Ok(bytes[start..start + n].to_vec())
        }
        _ => panic!("nothing is written"),
    });
    let res = read_msg(&mut stream);
    let left = bytes.len() - *at.borrow();
    (res, left)
}

#[test]
fn frames_are_flushed_and_come_back() {
    assert_eq!(framed(b""), b"\0\0\0\0!");
    assert_eq!(framed(b"abc"), b"\x03\0\0\0abc!");
    let (payload, left) = unframed(b"\x03\0\0\0abcnext");
    assert_eq!(payload.unwrap(), b"abc");
    assert_eq!(left, 4);
    let (payload, left) = unframed(b"\0\0\0\0");
    assert_eq!(payload.unwrap(), b"");
    assert_eq!(left, 0);
}

#[test]
fn broken_frames_are_refused() {
    for bytes in [&b""[..], &b"\x03\0\0"[..], &b"\x03\0\0\0ab"[..]] {
        let (res, _) = unframed(bytes);
        assert_eq!(res.unwrap_err().kind, IoErrorKind::UnexpectedEof);
    }
    let mut bytes = (MAX_MSG as u32 + 1).to_le_bytes().to_vec();
    bytes.extend_from_slice(b"rest");
    let (res, left) = unframed(&bytes);
    let e = res.unwrap_err();
    assert_eq!((e.kind, e.message.as_str()), (IoErrorKind::InvalidData, "frame too large"));
    assert_eq!(left, 4);
    let (res, _) = unframed(&(MAX_MSG as u32).to_le_bytes());
    assert_eq!(res.unwrap_err().kind, IoErrorKind::UnexpectedEof);
}

#[test]
fn integers_are_little_endian() {
    let mut buf = Vec::new();
    write_u32(&mut buf, 0x0102_0304);
    write_u64(&mut buf, 0x0102_0304_0506_0708);
    write_i32(&mut buf, i32::MIN);
    assert_eq!(buf, vec![4, 3, 2, 1, 8, 7, 6, 5, 4, 3, 2, 1, 0, 0, 0, 0x80]);
    assert_eq!(u32_at(&buf, 0), 0x0102_0304);
    assert_eq!(u64_at(&buf, 4), 0x0102_0304_0506_0708);
    assert_eq!(i32_at(&buf, 12), i32::MIN);
}

#[test]
fn messages_without_a_length_field_are_not_written() {
    let mut stream = Stream::new(|_: Action| panic!("nothing is written"));
    let payload = vec![0; u32::MAX as usize + 1];
    let e = write_msg(&mut stream, &payload).unwrap_err();
    assert_eq!((e.kind, e.message.as_str()), (IoErrorKind::InvalidInput, "frame too large"));
}
