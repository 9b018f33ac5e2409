//! Client, wire protocol and host dispatch put together in memory.

use smolvm_hip::client::{Client, HipRpcError};
use smolvm_hip::host::{dispatch, HipBackend};
use smolvm_hip::proto::{decode_request, encode_response, read_msg, write_msg, MAX_MSG};
use smolvm_hip::stream::{Action, IoError, IoErrorKind, Stream};
use std::cell::RefCell;
use std::collections::HashMap;

/// A device whose memory is a table of buffers.
struct TableBackend {
    ready: bool,
    next: u64,
    buffers: HashMap<u64, Vec<u8>>,
}

impl TableBackend {
    fn new() -> Self {
        TableBackend { ready: false, next: 0x7000_0000_0000, buffers: HashMap::new() }
    }
}

impl HipBackend for TableBackend {
    fn init(&mut self) -> Result<(), i32> {
        self.ready = true;
        Ok(())
    }
    fn device_get_count(&mut self) -> Result<i32, i32> {
        if self.ready { Ok(1) } else { Err(3) }
    }
    fn device_get_name(&mut self, device: i32) -> Result<String, i32> {
        if device == 0 { Ok("AMD Radeon 8060S \u{2122}".to_string()) } else { Err(101) }
    }
    fn device_total_mem(&mut self, device: i32) -> Result<u64, i32> {
        if device == 0 { Ok(0x1_8000_0000) } else { Err(101) }
    }
    fn mem_alloc(&mut self, size: u64) -> Result<u64, i32> {
        if size > 0x1_8000_0000 {
            return Err(2);
        }
        let dptr = self.next;
        self.next += 0x1000;
        self.buffers.insert(dptr, vec![0; size as usize]);
        Ok(dptr)
    }
    fn mem_free(&mut self, dptr: u64) -> Result<(), i32> {
        self.buffers.remove(&dptr).map(|_| ()).ok_or(1)
    }
    fn memcpy_h2d(&mut self, dptr: u64, data: &[u8]) -> Result<(), i32> {
        let buffer = self.buffers.get_mut(&dptr).ok_or(1)?;
        buffer[..data.len()].copy_from_slice(data);
        Ok(())
    }
    fn memcpy_d2h(&mut self, dptr: u64, size: u64) -> Result<Vec<u8>, i32> {
        let buffer = self.buffers.get(&dptr).ok_or(1)?;
        Ok(buffer[..size as usize].to_vec())
    }
    fn memcpy_d2d(&mut self, dst: u64, src: u64, size: u64) -> Result<(), i32> {
        let data = self.memcpy_d2h(src, size)?;
        self.memcpy_h2d(dst, &data)
    }
    fn device_synchronize(&mut self) -> Result<(), i32> {
        Ok(())
    }
}

/// Takes `n` bytes off the front, as an exact read does.
fn take(queue: &mut Vec<u8>, n: usize) -> Result<Vec<u8>, IoError> {
    if queue.len() < n {
        return Err(IoError::end_of_input());
    }
    let rest = queue.split_off(n);
    Ok(std::mem::replace(queue, rest))
}

/// Both ends of a connection: whatever is flushed is served at once.
struct Loopback {
    backend: Box<dyn HipBackend>,
    to_host: Vec<u8>,
    to_guest: Vec<u8>,
}

impl Loopback {
    fn serve(&mut self) {
        let inbox = RefCell::new(std::mem::take(&mut self.to_host));
        let mut requests = Stream::new(|action: Action| match action {
            Action::ReadExact(n) => take(&mut inbox.borrow_mut(), n),
            _ => Err(IoError::new(IoErrorKind::Unsupported, "read only")),
        });
        let payload = read_msg(&mut requests).expect("a whole frame");
        let req = decode_request(&payload).expect("decode request");
        let resp = dispatch(self.backend.as_mut(), req);
        let outbox = RefCell::new(Vec::new());
        let mut replies = Stream::new(|action: Action| {
            if let Action::WriteAll(bytes) = action {
                outbox.borrow_mut().extend_from_slice(bytes);
            }
            Ok(Vec::new())
        });
        write_msg(&mut replies, &encode_response(&resp)).unwrap();
        self.to_guest.extend(outbox.into_inner());
    }

    fn perform(&mut self, action: Action) -> Result<Vec<u8>, IoError> {
        match action {
            Action::WriteAll(bytes) => {
                self.to_host.extend_from_slice(bytes);
                Ok(Vec::new())
            }
            Action::Flush => {
                self.serve();
                Ok(Vec::new())
            }
            Action::ReadExact(n) => take(&mut self.to_guest, n),
            _ => Err(IoError::new(IoErrorKind::Unsupported, "not a file")),
        }
    }
}

fn loopback() -> RefCell<Loopback> {
    RefCell::new(Loopback {
        backend: Box::new(TableBackend::new()),
        to_host: Vec::new(),
        to_guest: Vec::new(),
    })
}

#[test]
fn full_stack_round_trip_in_memory() {
    let link = loopback();
    let mut client = Client::new(|action: Action| link.borrow_mut().perform(action));

    assert!(matches!(client.device_get_count(), Err(HipRpcError::Hip(3))));
    client.init().expect("hipInit over RPC");
    assert_eq!(client.device_get_count().expect("hipGetDeviceCount over RPC"), 1);
    assert_eq!(
        client.device_get_name(0).expect("hipDeviceGetName over RPC"),
        "AMD Radeon 8060S \u{2122}"
    );
    assert_eq!(client.device_total_mem(0).expect("hipDeviceTotalMem over RPC"), 0x1_8000_0000);

    let payload: Vec<u8> = (0u8..=255).cycle().take(4096).collect();
    let dptr = client.mem_alloc(payload.len() as u64).expect("hipMalloc over RPC");
    assert_eq!(dptr, 0x7000_0000_0000);
    client.memcpy_h2d(dptr, &payload).expect("hipMemcpy H2D over RPC");
    let back = client
        .memcpy_d2h(dptr, payload.len() as u64)
        .expect("hipMemcpy D2H over RPC");
    assert_eq!(payload, back, "round-tripped bytes must match exactly");

    let other = client.mem_alloc(4096).unwrap();
    client.memcpy_d2d(other, dptr, 100).unwrap();
    assert_eq!(client.memcpy_d2h(other, 100).unwrap(), &payload[..100]);

    client.device_synchronize().expect("hipDeviceSynchronize over RPC");
    client.mem_free(dptr).expect("hipFree over RPC");
    assert!(matches!(client.mem_free(dptr), Err(HipRpcError::Hip(1))));
}

#[test]
fn host_errors_reach_the_caller_unchanged() {
    let link = loopback();
    let mut client = Client::new(|action: Action| link.borrow_mut().perform(action));
    assert!(matches!(client.device_get_name(7), Err(HipRpcError::Hip(101))));
    assert!(matches!(client.device_total_mem(-1), Err(HipRpcError::Hip(101))));
    assert!(matches!(client.mem_alloc(u64::MAX), Err(HipRpcError::Hip(2))));
    assert!(matches!(client.memcpy_d2h(9, 4), Err(HipRpcError::Hip(1))));
    assert!(matches!(client.memcpy_d2d(9, 8, 4), Err(HipRpcError::Hip(1))));
    assert!(matches!(client.memcpy_h2d(9, &[1, 2]), Err(HipRpcError::Hip(1))));
}

/// A client whose every reply is the given response payload.
fn answered(
    frame: Vec<u8>,
) -> impl for<'a> Fn(Action<'a>) -> Result<Vec<u8>, IoError> {
    let queue = RefCell::new(frame);
    move |action: Action| match action {
        Action::ReadExact(n) => take(&mut queue.borrow_mut(), n),
        _ => Ok(Vec::new()),
    }
}

#[test]
fn malformed_replies_are_protocol_errors() {
    let short_status = vec![3, 0, 0, 0, 1, 0, 0];
    let mut client = Client::new(answered(short_status));
    assert!(matches!(client.init(), Err(HipRpcError::Protocol("malformed response"))));

    let short_count = vec![7, 0, 0, 0, 0, 0, 0, 0, 1, 0, 0];
    let mut client = Client::new(answered(short_count));
    let e = client.device_get_count().unwrap_err();
    assert_eq!(e.to_text(), "hip-rpc protocol: short DeviceGetCount reply");

    let short_word = vec![5, 0, 0, 0, 0, 0, 0, 0, 1];
    let mut client = Client::new(answered(short_word.clone()));
    assert!(matches!(
        client.device_total_mem(0),
        Err(HipRpcError::Protocol("short DeviceTotalMem reply"))
    ));
    let mut client = Client::new(answered(short_word));
    assert!(matches!(
        client.mem_alloc(1),
        Err(HipRpcError::Protocol("short MemAlloc reply"))
    ));
}

#[test]
fn invalid_utf8_in_a_name_is_replaced() {
    let frame = vec![8, 0, 0, 0, 0, 0, 0, 0, b'g', 0xff, b'f', b'x'];
    let mut client = Client::new(answered(frame));
    assert_eq!(client.device_get_name(0).unwrap(), "g\u{fffd}fx");
}

#[test]
fn stream_failures_reach_the_caller() {
    let mut client = Client::new(answered(vec![4, 0, 0]));
    match client.init() {
        Err(HipRpcError::Io(e)) => assert_eq!(e.kind, IoErrorKind::UnexpectedEof),
        _ => panic!("expected an I/O error"),
    }
    let len = (MAX_MSG as u32 + 1).to_le_bytes().to_vec();
    let mut client = Client::new(answered(len));
    match client.init() {
        Err(HipRpcError::Io(e)) => {
            assert_eq!(e.kind, IoErrorKind::InvalidData);
            assert_eq!(e.message, "frame too large");
        }
        _ => panic!("expected an I/O error"),
    }
    let mut client = Client::new(|action: Action| match action {
        Action::Flush => Err(IoError::new(IoErrorKind::BrokenPipe, "broken pipe")),
        _ => Ok(Vec::new()),
    });
    let e = client.device_synchronize().unwrap_err();
    assert_eq!(e.to_text(), "hip-rpc io: broken pipe");
}

#[test]
fn error_reports() {
    assert_eq!(HipRpcError::Hip(0).to_text(), "HIP error 0");
    assert_eq!(HipRpcError::Hip(801).to_text(), "HIP error 801");
    assert_eq!(HipRpcError::Hip(i32::MIN).to_text(), "HIP error -2147483648");
    let e: HipRpcError = IoError::end_of_input().into();
    assert_eq!(e.to_text(), "hip-rpc io: failed to fill whole buffer");
}
