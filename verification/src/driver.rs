//! The runtime library of the host, as the library sees it.
//!
//! The runtime is any function that carries out one [`DriverCall`] and hands
//! back what the runtime returned. [`Driver`] keeps, for the contracts only,
//! the log of every call and what came of it.

use vstd::prelude::*;

verus! {

/// One function of the runtime library, with its arguments.
pub enum DriverCall<'a> {
    /// `hipInit`
    Init { flags: i32 },
    /// `hipGetDeviceCount`
    GetDeviceCount,
    /// `hipDeviceGetName`, with a zeroed buffer of `capacity` bytes
    DeviceGetName { capacity: usize, device: i32 },
    /// `hipDeviceTotalMem`
    DeviceTotalMem { device: i32 },
    /// `hipMalloc`
    Malloc { size: u64 },
    /// `hipFree`
    Free { dptr: u64 },
    /// `hipMemcpy` from host memory
    CopyIn { dptr: u64, data: &'a [u8], kind: i32 },
    /// `hipMemcpy` to a zeroed host buffer of `size` bytes
    CopyOut { dptr: u64, size: u64, kind: i32 },
    /// `hipMemcpy` within device memory
    CopyWithin { dst: u64, src: u64, size: u64, kind: i32 },
    /// `hipDeviceSynchronize`
    DeviceSynchronize,
}

/// What a [`DriverCall`] asks for.
pub enum Wanted {
    Init { flags: i32 },
    GetDeviceCount,
    DeviceGetName { capacity: usize, device: i32 },
    DeviceTotalMem { device: i32 },
    Malloc { size: u64 },
    Free { dptr: u64 },
    CopyIn { dptr: u64, data: Seq<u8>, kind: i32 },
    CopyOut { dptr: u64, size: u64, kind: i32 },
    CopyWithin { dst: u64, src: u64, size: u64, kind: i32 },
    DeviceSynchronize,
}

impl<'a> View for DriverCall<'a> {
    type V = Wanted;

    open spec fn view(&self) -> Wanted {
        match self {
            DriverCall::Init { flags } => Wanted::Init { flags: *flags },
            DriverCall::GetDeviceCount => Wanted::GetDeviceCount,
            DriverCall::DeviceGetName { capacity, device } => Wanted::DeviceGetName {
                capacity: *capacity,
                device: *device,
            },
            DriverCall::DeviceTotalMem { device } => Wanted::DeviceTotalMem { device: *device },
            DriverCall::Malloc { size } => Wanted::Malloc { size: *size },
            DriverCall::Free { dptr } => Wanted::Free { dptr: *dptr },
            DriverCall::CopyIn { dptr, data, kind } => Wanted::CopyIn {
                dptr: *dptr,
                data: data@,
                kind: *kind,
            },
            DriverCall::CopyOut { dptr, size, kind } => Wanted::CopyOut {
                dptr: *dptr,
                size: *size,
                kind: *kind,
            },
            DriverCall::CopyWithin { dst, src, size, kind } => Wanted::CopyWithin {
                dst: *dst,
                src: *src,
                size: *size,
                kind: *kind,
            },
            DriverCall::DeviceSynchronize => Wanted::DeviceSynchronize,
        }
    }
}

/// What a function of the runtime returned: its status and, where it has one,
/// its out-parameter.
pub struct Returned {
    pub status: i32,
    pub count: i32,
    pub word: u64,
    pub buffer: Vec<u8>,
}

/// The buffer that the runtime fills keeps its length where the call succeeds.
pub open spec fn keeps_buffer(wanted: Wanted, returned: Option<Returned>) -> bool {
    returned matches Some(r) ==> r.status == 0 ==> match wanted {
        Wanted::DeviceGetName { capacity, .. } => r.buffer@.len() == capacity,
        Wanted::CopyOut { size, .. } => r.buffer@.len() == size,
        _ => true,
    }
}

/// What is required of the function behind a driver: it can be asked for
/// anything, and hands over buffers of the length asked for. `None` means that
/// the library lacks the function.
pub open spec fn is_driver<D: for<'a> Fn(DriverCall<'a>) -> Option<Returned>>(driver: D) -> bool {
    &&& forall|call: DriverCall| #[trigger] call_requires(driver, (call,))
    &&& forall|call: DriverCall, returned: Option<Returned>|
        #[trigger] call_ensures(driver, (call,), returned) ==> keeps_buffer(call@, returned)
}

/// Whether `driver`, asked for `wanted`, may return `returned`.
pub open spec fn may_return<D: for<'a> Fn(DriverCall<'a>) -> Option<Returned>>(
    driver: D,
    wanted: Wanted,
    returned: Option<Returned>,
) -> bool {
    exists|call: DriverCall|
        #[trigger] call_ensures(driver, (call,), returned) && call@ == wanted
}

/// A function of the runtime that was called, and what it returned.
pub struct Called {
    pub wanted: Wanted,
    pub returned: Option<Returned>,
}

/// The runtime that `run` reaches.
pub struct Driver<D: for<'a> Fn(DriverCall<'a>) -> Option<Returned>> {
    run: D,
    log: Ghost<Seq<Called>>,
}

impl<D: for<'a> Fn(DriverCall<'a>) -> Option<Returned>> Driver<D> {
    #[verifier::type_invariant]
    spec fn can_run(&self) -> bool {
        is_driver(self.run)
    }

    /// The function that carries out the calls.
    pub closed spec fn run(&self) -> D {
        self.run
    }

    /// Every call so far, with what it returned.
    pub closed spec fn log(&self) -> Seq<Called> {
        self.log@
    }

    /// A driver of which nothing has been asked yet.
    pub fn new(run: D) -> (d: Self)
        requires
            is_driver(run),
        ensures
            d.run() == run,
            d.log() == Seq::<Called>::empty(),
    {
        Driver { run, log: Ghost(Seq::empty()) }
    }

    /// Carries out one call.
    pub fn perform(&mut self, call: DriverCall) -> (returned: Option<Returned>)
        ensures
            final(self).run() == old(self).run(),
            final(self).log() == old(self).log().push(Called { wanted: call@, returned }),
            may_return(old(self).run(), call@, returned),
            keeps_buffer(call@, returned),
    {
        proof {
            use_type_invariant(&*self);
        }
        let ghost wanted = call@;
        let returned = (self.run)(call);
        self.log = Ghost(self.log@.push(Called { wanted, returned }));
        returned
    }
}

/// What is wanted of the runtime is what the call says, argument by argument.
pub proof fn law_call_says_what_is_wanted(call: DriverCall)
    ensures
        match call {
            DriverCall::Init { flags } => call@ == (Wanted::Init { flags }),
            DriverCall::GetDeviceCount => call@ is GetDeviceCount,
            DriverCall::DeviceGetName { capacity, device } => call@ == (Wanted::DeviceGetName {
                capacity,
                device,
            }),
            DriverCall::DeviceTotalMem { device } => call@ == (Wanted::DeviceTotalMem { device }),
            DriverCall::Malloc { size } => call@ == (Wanted::Malloc { size }),
            DriverCall::Free { dptr } => call@ == (Wanted::Free { dptr }),
            DriverCall::CopyIn { dptr, data, kind } => call@ == (Wanted::CopyIn {
                dptr,
                data: data@,
                kind,
            }),
            DriverCall::CopyOut { dptr, size, kind } => call@ == (Wanted::CopyOut {
                dptr,
                size,
                kind,
            }),
            DriverCall::CopyWithin { dst, src, size, kind } => call@ == (Wanted::CopyWithin {
                dst,
                src,
                size,
                kind,
            }),
            DriverCall::DeviceSynchronize => call@ is DeviceSynchronize,
        },
{
}

} // verus!
