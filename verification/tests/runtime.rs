//! The entry points of the guest's runtime, and the statistics of a device.

use smolvm_hip::blockstat::device_sectors_written;
use smolvm_hip::client::HipRpcError;
use smolvm_hip::dialer::{Dialer, Endpoint};
use smolvm_hip::shim::{
    connect, endpoint, hipDeviceGetName, hipDeviceSynchronize, hipDeviceTotalMem, hipFree,
    hipGetDeviceCount, hipGetErrorString, hipInit, hipMalloc, hipMemcpy, hip_err, Link,
};
use smolvm_hip::stream::{Action, IoError, IoErrorKind};
use std::cell::RefCell;
use std::rc::Rc;

type Transport = Box<dyn Fn(Action<'_>) -> Result<Vec<u8>, IoError>>;

/// A host that records requests and answers each with the next reply.
#[derive(Default)]
struct Host {
    opened: RefCell<Vec<String>>,
    requests: RefCell<Vec<Vec<u8>>>,
    replies: RefCell<Vec<Vec<u8>>>,
    unread: RefCell<Vec<u8>>,
}

impl Host {
    fn answering(replies: &[&[u8]]) -> Rc<Host> {
        let host = Host::default();
        *host.replies.borrow_mut() = replies.iter().rev().map(|r| r.to_vec()).collect();
        Rc::new(host)
    }

    fn perform(&self, action: Action) -> Result<Vec<u8>, IoError> {
        match action {
            Action::WriteAll(bytes) => {
                self.requests.borrow_mut().push(bytes.to_vec());
                Ok(Vec::new())
            }
            Action::Flush => {
                if let Some(reply) = self.replies.borrow_mut().pop() {
                    let mut unread = self.unread.borrow_mut();
                    unread.extend_from_slice(&(reply.len() as u32).to_le_bytes());
                    unread.extend_from_slice(&reply);
                }
                Ok(Vec::new())
            }
            Action::ReadExact(n) => {
                let mut unread = self.unread.borrow_mut();
                if unread.len() < n {
                    return Err(IoError::end_of_input());
                }
                let rest = unread.split_off(n);
                Ok(std::mem::replace(&mut *unread, rest))
            }
            _ => Err(IoError::new(IoErrorKind::Unsupported, "not a file")),
        }
    }
}

fn describe(e: &Endpoint) -> String {
    match e {
        Endpoint::Tcp(address) => format!("tcp {address}"),
        Endpoint::Unix(path) => format!("unix {path}"),
        Endpoint::Vsock { cid, port } => format!("vsock {cid} {port}"),
    }
}

type Choice = Box<dyn Fn() -> Option<String>>;
type Open = Box<dyn Fn(Endpoint) -> Option<Transport>>;

fn dialer(host: &Rc<Host>) -> Dialer<Transport, Choice, Open> {
    let host = host.clone();
    let choice: Choice = Box::new(|| Some("tcp:127.0.0.1:7001".to_string()));
    let open: Open = Box::new(move |e: Endpoint| {
        host.opened.borrow_mut().push(describe(&e));
        let host = host.clone();
        Some(Box::new(move |action: Action<'_>| host.perform(action)) as Transport)
    });
    Dialer::new(choice, open)
}

fn unreachable_host(attempts: &Rc<RefCell<u32>>) -> Dialer<Transport, Choice, Open> {
    let attempts = attempts.clone();
    let choice: Choice = Box::new(|| None);
    let open: Open = Box::new(move |_: Endpoint| {
        *attempts.borrow_mut() += 1;
        None
    });
    Dialer::new(choice, open)
}

#[test]
fn the_text_chooses_the_endpoint() {
    assert_eq!(describe(&endpoint("")), "vsock 2 7001");
    assert_eq!(describe(&endpoint("vsock")), "vsock 2 7001");
    assert_eq!(describe(&endpoint("tcp")), "vsock 2 7001");
    assert_eq!(describe(&endpoint("tcp:localhost:99")), "tcp localhost:99");
    assert_eq!(describe(&endpoint("tcp:")), "tcp ");
    assert_eq!(describe(&endpoint("unix:/run/h\u{fc}.sock")), "unix /run/h\u{fc}.sock");
    assert_eq!(describe(&endpoint("UNIX:/run")), "vsock 2 7001");
}

#[test]
fn connecting_opens_the_chosen_endpoint() {
    let host = Host::answering(&[]);
    assert!(connect(&mut dialer(&host)).is_ok());
    assert_eq!(*host.opened.borrow(), vec!["tcp 127.0.0.1:7001"]);
    let attempts = Rc::new(RefCell::new(0));
    assert_eq!(connect(&mut unreachable_host(&attempts)).err(), Some(100));
    assert_eq!(*attempts.borrow(), 1);
}

#[test]
fn the_first_call_connects_and_the_next_does_not() {
    let host = Host::answering(&[&[0; 4], &[0; 4]]);
    let mut link = Link::new(dialer(&host));
    assert_eq!(hipInit(&mut link, 77), 0);
    assert_eq!(hipDeviceSynchronize(&mut link), 0);
    assert_eq!(host.opened.borrow().len(), 1);
    assert_eq!(
        *host.requests.borrow(),
        vec![vec![1, 0, 0, 0], vec![0x01], vec![1, 0, 0, 0], vec![0x20]]
    );
}

#[test]
fn a_failed_call_does_not_end_the_connection() {
    let host = Host::answering(&[&[5, 0, 0, 0], &[1], &[0; 4]]);
    let mut link = Link::new(dialer(&host));
    assert_eq!(hipInit(&mut link, 0), 5);
    assert_eq!(hipInit(&mut link, 0), 801);
    assert_eq!(hipInit(&mut link, 0), 0);
    assert_eq!(host.opened.borrow().len(), 1);
}

#[test]
fn without_a_host_there_is_no_device() {
    let attempts = Rc::new(RefCell::new(0));
    let mut link = Link::new(unreachable_host(&attempts));
    let mut count = 9;
    let mut name = b"old".to_vec();
    let mut stored = None;
    assert_eq!(hipInit(&mut link, 0), 100);
    assert_eq!(hipGetDeviceCount(&mut link, Some(&mut count)), 100);
    assert_eq!(hipDeviceGetName(&mut link, Some(&mut name), 9, 0), 100);
    let load = |_, _| vec![1];
    assert_eq!(hipMemcpy(&mut link, load, &mut stored, 1, 2, 3, 2), 100);
    assert!(link.client.is_none());
    assert_eq!(*attempts.borrow(), 4);
    assert_eq!((count, name.as_slice(), stored), (9, &b"old"[..], None));
}

#[test]
fn null_targets_are_refused_before_connecting() {
    let host = Host::answering(&[]);
    let mut link = Link::new(dialer(&host));
    let mut name = Vec::new();
    assert_eq!(hipGetDeviceCount(&mut link, None), 1);
    assert_eq!(hipDeviceTotalMem(&mut link, None, 0), 1);
    assert_eq!(hipMalloc(&mut link, None, 64), 1);
    assert_eq!(hipDeviceGetName(&mut link, None, 64, 0), 1);
    assert_eq!(hipDeviceGetName(&mut link, Some(&mut name), 0, 0), 1);
    assert_eq!(hipDeviceGetName(&mut link, Some(&mut name), -1, 0), 1);
    let mut stored = None;
    let load = |_, _| panic!("nothing is loaded");
    assert_eq!(hipMemcpy(&mut link, load, &mut stored, 1, 2, 3, 0), 801);
    assert_eq!(hipMemcpy(&mut link, load, &mut stored, 1, 2, 3, 4), 801);
    assert!(host.opened.borrow().is_empty());
}

#[test]
fn values_are_stored_on_success_only() {
    let host = Host::answering(&[
        &[0, 0, 0, 0, 3, 0, 0, 0],
        &[0, 0, 0, 0, 0, 0, 0, 0, 1, 0, 0, 0],
        &[0, 0, 0, 0, 0, 0x10, 0, 0, 0, 0, 0, 0],
        &[2, 0, 0, 0],
        &[0, 0, 0, 0, 1],
    ]);
    let mut link = Link::new(dialer(&host));
    let (mut count, mut bytes, mut ptr) = (0, 0, 0);
    assert_eq!(hipGetDeviceCount(&mut link, Some(&mut count)), 0);
    assert_eq!(hipDeviceTotalMem(&mut link, Some(&mut bytes), 0), 0);
    assert_eq!(hipMalloc(&mut link, Some(&mut ptr), 64), 0);
    assert_eq!((count, bytes, ptr), (3, 1 << 32, 0x1000));
    assert_eq!(hipMalloc(&mut link, Some(&mut ptr), u64::MAX), 2);
    assert_eq!(hipGetDeviceCount(&mut link, Some(&mut count)), 801);
    assert_eq!(hipFree(&mut link, ptr), 100);
    assert_eq!((count, ptr), (3, 0x1000));
}

#[test]
fn device_names_are_cut_to_the_buffer() {
    let reply = b"\0\0\0\0gfx1151";
    for (len, expected) in [(1, &b"\0"[..]), (4, b"gfx\0"), (8, b"gfx1151\0"), (256, b"gfx1151\0")]
    {
        let host = Host::answering(&[reply]);
        let mut link = Link::new(dialer(&host));
        let mut name = Vec::new();
        let status = hipDeviceGetName(&mut link, Some(&mut name), len, 6);
        assert_eq!((status, name.as_slice()), (0, expected));
        assert_eq!(host.requests.borrow()[1], vec![0x03, 6, 0, 0, 0]);
    }
}

#[test]
fn memory_is_copied_in_the_asked_direction() {
    let host = Host::answering(&[&[0; 4], b"\0\0\0\0RAM!", &[0; 4], &[1, 0, 0, 0]]);
    let mut link = Link::new(dialer(&host));
    let mut stored = None;
    let load = |address: u64, size: u64| {
        assert_eq!((address, size), (0xaaaa, 2));
        vec![7, 8]
    };
    assert_eq!(hipMemcpy(&mut link, load, &mut stored, 0x1000, 0xaaaa, 2, 1), 0);
    assert_eq!(stored, None);
    assert_eq!(
        host.requests.borrow()[1],
        vec![0x12, 0, 0x10, 0, 0, 0, 0, 0, 0, 2, 0, 0, 0, 0, 0, 0, 0, 7, 8]
    );
    assert_eq!(hipMemcpy(&mut link, load, &mut stored, 0xbbbb, 0x1000, 4, 2), 0);
    assert_eq!(stored.take(), Some(b"RAM!".to_vec()));
    assert_eq!(
        host.requests.borrow()[3],
        vec![0x13, 0, 0x10, 0, 0, 0, 0, 0, 0, 4, 0, 0, 0, 0, 0, 0, 0]
    );
    assert_eq!(hipMemcpy(&mut link, load, &mut stored, 1, 2, 3, 3), 0);
    assert_eq!(hipMemcpy(&mut link, load, &mut stored, 1, 2, 3, 2), 1);
    assert_eq!(stored, None);
}

#[test]
fn failures_become_error_codes() {
    assert_eq!(hip_err(HipRpcError::Hip(719)), 719);
    assert_eq!(hip_err(HipRpcError::Io(IoError::end_of_input())), 100);
    assert_eq!(hip_err(HipRpcError::Protocol("malformed response")), 801);
}

#[test]
fn error_codes_have_texts() {
    assert_eq!(hipGetErrorString(0), "hipSuccess\0");
    assert_eq!(hipGetErrorString(1), "hipErrorInvalidValue\0");
    assert_eq!(hipGetErrorString(2), "hipErrorOutOfMemory\0");
    assert_eq!(hipGetErrorString(3), "hipErrorNotInitialized\0");
    assert_eq!(hipGetErrorString(100), "hipErrorNoDevice\0");
    assert_eq!(
        hipGetErrorString(801),
        "hipErrorNotSupported (smolvm-hip-shim: not yet implemented)\0"
    );
    assert_eq!(hipGetErrorString(-1), "hipErrorUnknown\0");
}

#[test]
fn sectors_written_are_the_seventh_field() {
    let stat = "   71563     9103  5763138    22917   214783   162315 10427514   181004        0\n";
    assert_eq!(device_sectors_written(stat), Some(10427514));
    assert_eq!(device_sectors_written("1 2 3 4 5 6 +7"), Some(7));
    assert_eq!(device_sectors_written("1\t2\u{a0}3 4 5 6\u{3000}18446744073709551615 8"), Some(u64::MAX));
    assert_eq!(device_sectors_written("1 2 3 4 5 6 18446744073709551616"), None);
    assert_eq!(device_sectors_written("1 2 3 4 5 6 7x 8"), None);
    assert_eq!(device_sectors_written("1 2 3 4 5 6 + 8"), None);
    assert_eq!(device_sectors_written("1 2 3 4 5 6 -7"), None);
    assert_eq!(device_sectors_written("1 2 3 4 5 6"), None);
    assert_eq!(device_sectors_written(""), None);
}
