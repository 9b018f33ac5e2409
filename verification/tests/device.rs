//! The backend over a runtime library.

use smolvm_hip::driver::{DriverCall, Returned};
use smolvm_hip::gpu::{candidate_paths, RealHipBackend};
use smolvm_hip::host::{dispatch, HipBackend};
use smolvm_hip::loader::Opener;
use smolvm_hip::proto::Request;
use std::cell::{Cell, RefCell};
use std::collections::HashMap;

fn returned(status: i32) -> Returned {
    Returned { status, count: 0, word: 0, buffer: Vec::new() }
}

/// A runtime whose device memory is a table, with a record of what was asked.
struct Runtime {
    memory: RefCell<HashMap<u64, Vec<u8>>>,
    asked: RefCell<Vec<String>>,
    frees: Cell<u32>,
}

impl Runtime {
    fn new() -> Self {
        Runtime {
            memory: RefCell::new(HashMap::new()),
            asked: RefCell::new(Vec::new()),
            frees: Cell::new(0),
        }
    }

    fn perform(&self, call: DriverCall) -> Option<Returned> {
        let mut asked = self.asked.borrow_mut();
        let mut memory = self.memory.borrow_mut();
        let mut out = returned(0);
        match call {
            DriverCall::Init { flags } => asked.push(format!("init {flags}")),
            DriverCall::GetDeviceCount => out.count = 2,
            DriverCall::DeviceGetName { capacity, device } => {
                asked.push(format!("name {capacity} {device}"));
                out.buffer = b"gfx\xff1151\0junk".to_vec();
                out.buffer.resize(capacity, 0);
            }
            DriverCall::DeviceTotalMem { device } => out.word = 1 << (32 + device),
            DriverCall::Malloc { size } => {
                out.word = 0x1000 * (memory.len() as u64 + 1);
                memory.insert(out.word, vec![0; size as usize]);
            }
            DriverCall::Free { dptr } => {
                self.frees.set(self.frees.get() + 1);
                if memory.remove(&dptr).is_none() {
                    out.status = 1;
                }
            }
            DriverCall::CopyIn { dptr, data, kind } => {
                asked.push(format!("in {kind}"));
                match memory.get_mut(&dptr) {
                    Some(buffer) => buffer[..data.len()].copy_from_slice(data),
                    None => out.status = 17,
                }
            }
            DriverCall::CopyOut { dptr, size, kind } => {
                asked.push(format!("out {kind}"));
                out.buffer = vec![0; size as usize];
                match memory.get(&dptr) {
                    Some(buffer) => out.buffer.copy_from_slice(&buffer[..size as usize]),
                    None => out.status = 17,
                }
            }
            DriverCall::CopyWithin { dst, src, size, kind } => {
                asked.push(format!("within {kind}"));
                let part = memory[&src][..size as usize].to_vec();
                memory.get_mut(&dst).unwrap()[..size as usize].copy_from_slice(&part);
            }
            DriverCall::DeviceSynchronize => return None,
        }
        Some(out)
    }
}

#[test]
fn calls_are_forwarded_to_the_runtime() {
    let runtime = Runtime::new();
    let mut backend = RealHipBackend::over(|call: DriverCall| runtime.perform(call));
    assert_eq!(backend.init(), Ok(()));
    assert_eq!(backend.device_get_count(), Ok(2));
    assert_eq!(backend.device_get_name(5).unwrap(), "gfx\u{fffd}1151");
    assert_eq!(backend.device_total_mem(1), Ok(1 << 33));
    let a = backend.mem_alloc(4).unwrap();
    let b = backend.mem_alloc(4).unwrap();
    assert_eq!((a, b), (0x1000, 0x2000));
    assert_eq!(backend.memcpy_h2d(a, b"RAM!"), Ok(()));
    assert_eq!(backend.memcpy_d2d(b, a, 3), Ok(()));
    assert_eq!(backend.memcpy_d2h(b, 4), Ok(b"RAM\0".to_vec()));
    assert_eq!(backend.mem_free(a), Ok(()));
    assert_eq!(runtime.frees.get(), 1);
    assert_eq!(
        *runtime.asked.borrow(),
        vec!["init 0", "name 256 5", "in 1", "within 3", "out 2"]
    );
}

#[test]
fn errors_of_the_runtime_are_returned() {
    let runtime = Runtime::new();
    let mut backend = RealHipBackend::over(|call: DriverCall| runtime.perform(call));
    assert_eq!(backend.mem_free(7), Err(1));
    assert_eq!(backend.memcpy_h2d(7, b"x"), Err(17));
    assert_eq!(backend.memcpy_d2h(7, 3), Err(17));
    let mut broken = RealHipBackend::over(|_: DriverCall| Some(returned(-5)));
    assert_eq!(broken.init(), Err(-5));
    assert_eq!(broken.device_get_count(), Err(-5));
    assert_eq!(broken.device_get_name(0), Err(-5));
    assert_eq!(broken.device_total_mem(0), Err(-5));
    assert_eq!(broken.mem_alloc(1), Err(-5));
    assert_eq!(broken.memcpy_d2d(1, 2, 3), Err(-5));
    assert_eq!(broken.device_synchronize(), Err(-5));
}

#[test]
fn missing_functions_are_reported() {
    let runtime = Runtime::new();
    let mut backend = RealHipBackend::over(|call: DriverCall| runtime.perform(call));
    assert_eq!(backend.device_synchronize(), Err(999));
    let mut empty = RealHipBackend::over(|_: DriverCall| None);
    assert_eq!(empty.init(), Err(999));
    assert_eq!(empty.mem_alloc(1), Err(999));
    assert_eq!(empty.mem_free(1), Err(999));
    assert_eq!(empty.device_get_name(0), Err(999));
}

#[test]
fn names_without_an_end_are_taken_whole() {
    let mut backend = RealHipBackend::over(|_: DriverCall| {
        Some(Returned { status: 0, count: 0, word: 0, buffer: vec![b'x'; 256] })
    });
    assert_eq!(backend.device_get_name(0).unwrap(), "x".repeat(256));
}

#[test]
fn dispatch_reaches_the_runtime() {
    let runtime = Runtime::new();
    let mut backend = RealHipBackend::over(|call: DriverCall| runtime.perform(call));
    let resp = dispatch(&mut backend, Request::DeviceGetCount);
    assert_eq!((resp.status, resp.data), (0, vec![2, 0, 0, 0]));
    let resp = dispatch(&mut backend, Request::MemAlloc { size: 8 });
    assert_eq!((resp.status, resp.data), (0, vec![0, 0x10, 0, 0, 0, 0, 0, 0]));
    let data = b"12345678".to_vec();
    let resp = dispatch(&mut backend, Request::MemcpyHtoD { dptr: 0x1000, data });
    assert_eq!((resp.status, resp.data), (0, vec![]));
    let resp = dispatch(&mut backend, Request::MemcpyDtoH { dptr: 0x1000, size: 3 });
    assert_eq!((resp.status, resp.data), (0, b"123".to_vec()));
    let resp = dispatch(&mut backend, Request::MemFree { dptr: 0x9000 });
    assert_eq!((resp.status, resp.data), (1, vec![]));
    let resp = dispatch(&mut backend, Request::DeviceSynchronize);
    assert_eq!((resp.status, resp.data), (999, vec![]));
}

#[test]
fn the_library_is_looked_for_in_order() {
    assert_eq!(
        candidate_paths(None),
        vec!["libamdhip64.so", "/opt/rocm/lib/libamdhip64.so"]
    );
    assert_eq!(
        candidate_paths(Some("/x.so".to_string())),
        vec!["/x.so", "libamdhip64.so", "/opt/rocm/lib/libamdhip64.so"]
    );
}

fn driver(_: DriverCall) -> Option<Returned> {
    Some(returned(0))
}

#[test]
fn loading_takes_the_first_library_found() {
    let tried = RefCell::new(Vec::new());
    let mut opener = Opener::new(|path: &str| {
        tried.borrow_mut().push(path.to_string());
        if path == "libamdhip64.so" {
            Ok(driver as fn(DriverCall) -> Option<Returned>)
        } else {
            Err("no such file".to_string())
        }
    });
    let loaded = RealHipBackend::load(Some("/mine.so".to_string()), &mut opener);
    assert_eq!(loaded.ok().unwrap().init(), Ok(()));
    assert_eq!(*tried.borrow(), vec!["/mine.so", "libamdhip64.so"]);
}

#[test]
fn loading_reports_the_last_failure() {
    let mut opener = Opener::new(|path: &str| {
        Err::<fn(DriverCall) -> Option<Returned>, String>(format!("cannot open {path}"))
    });
    let loaded = RealHipBackend::load(None, &mut opener);
    assert_eq!(
        loaded.err().unwrap(),
        "could not dlopen libamdhip64.so: /opt/rocm/lib/libamdhip64.so: \
         cannot open /opt/rocm/lib/libamdhip64.so"
    );
}
