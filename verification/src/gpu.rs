//! HIP backend over the runtime library of the host.
//!
//! Device pointers handed to callers are the real device addresses that the
//! runtime returned.

use crate::driver;
use crate::driver::{Called, Driver, DriverCall, Returned, Wanted};
use crate::host;
use crate::host::{Answer, DeviceState, HipBackend};
use crate::loader;
use crate::loader::{Opener, Tried};
use crate::proto::Call;
use crate::text;
use crate::text::text_from_utf8_lossy;
use std::collections::HashMap;
use vstd::prelude::*;
use vstd::slice::slice_subrange;

verus! {

/// `hipMemcpy` from the host to the device.
pub const HIP_MEMCPY_HOST_TO_DEVICE: i32 = 1;

/// `hipMemcpy` from the device to the host.
pub const HIP_MEMCPY_DEVICE_TO_HOST: i32 = 2;

/// `hipMemcpy` within the device.
pub const HIP_MEMCPY_DEVICE_TO_DEVICE: i32 = 3;

/// The error reported for a function that the runtime library lacks.
pub const SYMBOL_MISSING: i32 = 999;

/// The size of the buffer that receives a device name.
pub const NAME_CAPACITY: usize = 256;

/// The function of the runtime that a call is forwarded to.
pub open spec fn forwarded(call: Call) -> Wanted {
    match call {
        Call::Init => Wanted::Init { flags: 0 },
        Call::DeviceGetCount => Wanted::GetDeviceCount,
        Call::DeviceGetName { device } => Wanted::DeviceGetName {
            capacity: NAME_CAPACITY,
            device,
        },
        Call::DeviceTotalMem { device } => Wanted::DeviceTotalMem { device },
        Call::MemAlloc { size } => Wanted::Malloc { size },
        Call::MemFree { dptr } => Wanted::Free { dptr },
        Call::MemcpyHtoD { dptr, data } => Wanted::CopyIn {
            dptr,
            data,
            kind: HIP_MEMCPY_HOST_TO_DEVICE,
        },
        Call::MemcpyDtoH { dptr, size } => Wanted::CopyOut {
            dptr,
            size,
            kind: HIP_MEMCPY_DEVICE_TO_HOST,
        },
        Call::MemcpyDtoD { dst, src, size } => Wanted::CopyWithin {
            dst,
            src,
            size,
            kind: HIP_MEMCPY_DEVICE_TO_DEVICE,
        },
        Call::DeviceSynchronize => Wanted::DeviceSynchronize,
    }
}

/// The bytes of a C string: those of `buffer` before the first NUL.
pub open spec fn c_string(buffer: Seq<u8>) -> Seq<u8>
    decreases buffer.len(),
{
    if buffer.len() == 0 || buffer[0] == 0 {
        Seq::empty()
    } else {
        seq![buffer[0]] + c_string(buffer.skip(1))
    }
}

/// The error of a function of the runtime: the status, or that the library
/// lacks the function.
pub open spec fn failure(returned: Option<Returned>) -> Option<i32> {
    match returned {
        None => Some(SYMBOL_MISSING),
        Some(r) => if r.status == 0 {
            None
        } else {
            Some(r.status)
        },
    }
}

/// The result `value` of a function of the runtime, or its error.
pub open spec fn checked<T>(returned: Option<Returned>, value: T) -> Result<T, i32> {
    match failure(returned) {
        Some(e) => Err(e),
        None => Ok(value),
    }
}

/// The answer to `call` where the runtime returned `returned`.
pub open spec fn answer_to(call: Call, returned: Option<Returned>) -> Answer {
    let r = returned->Some_0;
    match call {
        Call::DeviceGetCount => Answer::Count(checked(returned, r.count)),
        Call::DeviceGetName { .. } => Answer::Name(
            checked(returned, text::text_of(c_string(r.buffer@))),
        ),
        Call::DeviceTotalMem { .. } | Call::MemAlloc { .. } => Answer::Word(
            checked(returned, r.word),
        ),
        Call::MemcpyDtoH { .. } => Answer::Data(checked(returned, r.buffer@)),
        _ => Answer::Done(checked(returned, ())),
    }
}

/// The live allocations after `call`. Memory that was to be freed counts as
/// gone also where the runtime reports an error.
pub open spec fn held_after(
    held: Map<u64, u64>,
    call: Call,
    returned: Option<Returned>,
) -> Map<u64, u64> {
    match (call, returned) {
        (Call::MemAlloc { size }, Some(r)) if r.status == 0 => held.insert(r.word, size),
        (Call::MemFree { dptr }, Some(_)) => held.remove(dptr),
        _ => held,
    }
}

/// The status of a function of the runtime as a result.
fn check(returned: Option<Returned>) -> (res: Result<Returned, i32>)
    ensures
        res == checked(returned, returned->Some_0),
{
    match returned {
        None => Err(SYMBOL_MISSING),
        Some(r) => if r.status == 0 {
            Ok(r)
        } else {
            Err(r.status)
        },
    }
}

/// The text of the C string in `buffer`.
fn c_text(buffer: &[u8]) -> (s: String)
    ensures
        s@ == text::text_of(c_string(buffer@)),
{
    let len: usize = buffer.len();
    let mut n: usize = 0;
    assert(buffer@.skip(0) =~= buffer@);
    assert(buffer@.take(0) + c_string(buffer@) =~= c_string(buffer@));
    while n < len && buffer[n] != 0
        invariant
            n <= len == buffer@.len(),
            buffer@.take(n as int) + c_string(buffer@.skip(n as int)) == c_string(buffer@),
        decreases len - n,
    {
        proof {
            let rest = buffer@.skip(n as int);
            assert(rest.skip(1) =~= buffer@.skip(n + 1));
            assert(buffer@.take(n + 1) + c_string(rest.skip(1)) =~= buffer@.take(n as int)
                + c_string(rest));
        }
        n = n + 1;
    }
    assert(buffer@.take(n as int) =~= c_string(buffer@));
    assert(buffer@.subrange(0, n as int) =~= buffer@.take(n as int));
    text_from_utf8_lossy(slice_subrange(buffer, 0, n))
}

/// Where the runtime library is looked for, in this order: the path that was
/// asked for, the plain name, and the default installation.
pub open spec fn candidates(asked: Option<Seq<char>>) -> Seq<Seq<char>> {
    let known = seq!["libamdhip64.so"@, "/opt/rocm/lib/libamdhip64.so"@];
    match asked {
        Some(path) => seq![path] + known,
        None => known,
    }
}

/// The path that was asked for, if one was.
pub open spec fn named_path(asked: Option<String>) -> Option<Seq<char>> {
    match asked {
        Some(path) => Some(path@),
        None => None,
    }
}

/// Where the runtime library is looked for when `asked` names a path or not.
pub fn candidate_paths(asked: Option<String>) -> (paths: Vec<String>)
    ensures
        paths@.map_values(|p: String| p@) == candidates(named_path(asked)),
{
    let mut paths: Vec<String> = Vec::new();
    if let Some(path) = asked {
        paths.push(path);
    }
    paths.push("libamdhip64.so".to_owned());
    paths.push("/opt/rocm/lib/libamdhip64.so".to_owned());
    paths
}

/// Whether `after` came from `before` by answering `call` with `answer`: of the
/// runtime, exactly the one function that the call is forwarded to was called.
pub open spec fn forwards(
    before: DeviceState,
    call: Call,
    answer: Answer,
    after: DeviceState,
) -> bool {
    &&& after.runtime == before.runtime
    &&& after.memory == before.memory
    &&& exists|returned: Option<Returned>|
        {
            &&& (before.runtime)(forwarded(call), returned)
            &&& driver::keeps_buffer(forwarded(call), returned)
            &&& answer == #[trigger] answer_to(call, returned)
            &&& after.allocations == held_after(before.allocations, call, returned)
            &&& after.called == before.called.push(Called { wanted: forwarded(call), returned })
        }
}

/// Whether `tries` are the search for a library in `paths` with `open`: they are
/// tried in order, each only where all before it failed.
pub open spec fn searched<D, O: for<'a> Fn(&'a str) -> Result<D, String>>(
    open: O,
    paths: Seq<Seq<char>>,
    tries: Seq<Tried<D>>,
) -> bool {
    &&& tries.len() <= paths.len()
    &&& forall|i: int|
        0 <= i < tries.len() ==> {
            &&& (#[trigger] tries[i]).path == paths[i]
            &&& loader::may_open(open, paths[i], tries[i].outcome)
            &&& i < tries.len() - 1 ==> tries[i].outcome is Err
        }
}

/// HIP backend over the runtime that `driver` reaches.
pub struct RealHipBackend<D: for<'a> Fn(DriverCall<'a>) -> Option<Returned>> {
    driver: Driver<D>,
    allocations: HashMap<u64, u64>,
}

impl<D: for<'a> Fn(DriverCall<'a>) -> Option<Returned>> RealHipBackend<D> {
    /// The runtime.
    pub closed spec fn driver(&self) -> Driver<D> {
        self.driver
    }

    /// The sizes of the live allocations by address.
    pub closed spec fn held(&self) -> Map<u64, u64> {
        self.allocations@
    }

    /// The state of the backend.
    pub open spec fn device(&self) -> DeviceState {
        let run = self.driver().run();
        DeviceState {
            allocations: self.held(),
            memory: |address: int| 0u8,
            runtime: |wanted: Wanted, returned: Option<Returned>|
                driver::may_return(run, wanted, returned),
            called: self.driver().log(),
        }
    }

    /// `self` came from `before` by answering `call` with `answer`.
    pub open spec fn answered(&self, before: &Self, call: Call, answer: Answer) -> bool {
        &&& self.driver().run() == before.driver().run()
        &&& forwards(before.device(), call, answer, self.device())
    }

    /// One call of the runtime and what follows from it answer a request.
    proof fn lemma_answered(&self, before: &Self, call: Call, returned: Option<Returned>)
        requires
            self.driver().run() == before.driver().run(),
            self.driver().log() == before.driver().log().push(
                Called { wanted: forwarded(call), returned },
            ),
            driver::may_return(before.driver().run(), forwarded(call), returned),
            driver::keeps_buffer(forwarded(call), returned),
            self.held() == held_after(before.held(), call, returned),
        ensures
            self.answered(before, call, answer_to(call, returned)),
    {
        assert(self.device().runtime =~= before.device().runtime);
    }

    /// Loads the runtime library from the first place where `opener` finds it;
    /// `asked` is a path to try before the usual ones.
    pub fn load<O: for<'a> Fn(&'a str) -> Result<D, String>>(
        asked: Option<String>,
        opener: &mut Opener<D, O>,
    ) -> (res: Result<Self, String>)
        ensures
            final(opener).function() == old(opener).function(),
            exists|tries: Seq<Tried<D>>| #[trigger]
                searched(old(opener).function(), candidates(named_path(asked)), tries) && {
                    let paths = candidates(named_path(asked));
                    &&& final(opener).log() == old(opener).log() + tries
                    &&& match res {
                        Ok(b) => {
                            &&& tries.len() > 0
                            &&& tries.last().outcome == Ok::<D, String>(b.driver().run())
                            &&& b.driver().log() == Seq::<Called>::empty()
                            &&& b.held() == Map::<u64, u64>::empty()
                        },
                        Err(report) => {
                            &&& tries.len() == paths.len()
                            &&& tries.last().outcome matches Err(e) && report@
                                == "could not dlopen libamdhip64.so: "@ + paths.last() + ": "@ + e@
                        },
                    }
                },
    {
        let ghost places = candidates(named_path(asked));
        let paths = candidate_paths(asked);
        assert forall|i: int| 0 <= i < paths@.len() implies #[trigger] paths@[i]@ == places[i] by {
            assert(paths@.map_values(|p: String| p@)[i] == paths@[i]@);
        }
        let mut last_err = String::new();
        let ghost mut tries: Seq<Tried<D>> = Seq::empty();
        assert(opener.log() =~= old(opener).log() + tries);
        let mut i: usize = 0;
        while i < paths.len()
            invariant
                i <= paths@.len(),
                paths@.len() == places.len(),
                forall|k: int| 0 <= k < paths@.len() ==> #[trigger] paths@[k]@ == places[k],
                opener.function() == old(opener).function(),
                opener.log() == old(opener).log() + tries,
                tries.len() == i,
                forall|k: int|
                    0 <= k < i ==> (#[trigger] tries[k]).path == places[k] && loader::may_open(
                        opener.function(),
                        places[k],
                        tries[k].outcome,
                    ) && tries[k].outcome is Err,
                i > 0 ==> (tries.last().outcome matches Err(e) && last_err@ == places[i - 1] + ": "@
                    + e@),
                places == candidates(named_path(asked)),
            decreases paths@.len() - i,
        {
            let path = paths[i].as_str();
            let outcome = opener.open(path);
            proof {
                tries = tries.push(Tried { path: path@, outcome });
                assert(opener.log() =~= old(opener).log() + tries);
            }
            match outcome {
                Ok(run) => {
                    assert(searched(opener.function(), places, tries));
                    return Ok(RealHipBackend::over(run));
                },
                Err(e) => {
                    let mut text = text::joined(path, ": ");
                    text.append(e.as_str());
                    last_err = text;
                },
            }
            i = i + 1;
        }
        let text = text::joined("could not dlopen libamdhip64.so: ", last_err.as_str());
        proof {
            assert(searched(opener.function(), places, tries));
            let e = tries.last().outcome->Err_0;
            assert(text@ =~= "could not dlopen libamdhip64.so: "@ + places.last() + ": "@ + e@);
        }
        Err(text)
    }

    /// A backend without allocations.
    pub fn over(run: D) -> (b: Self)
        requires
            driver::is_driver(run),
        ensures
            b.driver().run() == run,
            b.driver().log() == Seq::<Called>::empty(),
            b.held() == Map::<u64, u64>::empty(),
    {
        broadcast use vstd::std_specs::hash::group_hash_axioms;

        RealHipBackend { driver: Driver::new(run), allocations: HashMap::new() }
    }
}

impl<D: for<'a> Fn(DriverCall<'a>) -> Option<Returned>> HipBackend for RealHipBackend<D> {
    open spec fn state(&self) -> DeviceState {
        self.device()
    }

    open spec fn answers(&self, call: Call, answer: Answer, after: DeviceState) -> bool {
        forwards(self.device(), call, answer, after)
    }

    fn init(&mut self) -> (r: Result<(), i32>)
        ensures
            final(self).answered(old(self), Call::Init, Answer::Done(r)),
    {
        let returned = self.driver.perform(DriverCall::Init { flags: 0 });
        proof {
            self.lemma_answered(old(self), Call::Init, returned);
        }
        match check(returned) {
            Ok(_) => Ok(()),
            Err(e) => Err(e),
        }
    }

    fn device_get_count(&mut self) -> (r: Result<i32, i32>)
        ensures
            final(self).answered(old(self), Call::DeviceGetCount, Answer::Count(r)),
    {
        let returned = self.driver.perform(DriverCall::GetDeviceCount);
        proof {
            self.lemma_answered(old(self), Call::DeviceGetCount, returned);
        }
        match check(returned) {
            Ok(r) => Ok(r.count),
            Err(e) => Err(e),
        }
    }

    fn device_get_name(&mut self, device: i32) -> (r: Result<String, i32>)
        ensures
            final(self).answered(
                old(self),
                Call::DeviceGetName { device },
                Answer::Name(host::named(r)),
            ),
    {
        let returned = self.driver.perform(
            DriverCall::DeviceGetName { capacity: NAME_CAPACITY, device },
        );
        proof {
            self.lemma_answered(old(self), Call::DeviceGetName { device }, returned);
        }
        match check(returned) {
            Ok(r) => Ok(c_text(r.buffer.as_slice())),
            Err(e) => Err(e),
        }
    }

    fn device_total_mem(&mut self, device: i32) -> (r: Result<u64, i32>)
        ensures
            final(self).answered(old(self), Call::DeviceTotalMem { device }, Answer::Word(r)),
    {
        let returned = self.driver.perform(DriverCall::DeviceTotalMem { device });
        proof {
            self.lemma_answered(old(self), Call::DeviceTotalMem { device }, returned);
        }
        match check(returned) {
            Ok(r) => Ok(r.word),
            Err(e) => Err(e),
        }
    }

    fn mem_alloc(&mut self, size: u64) -> (r: Result<u64, i32>)
        ensures
            final(self).answered(old(self), Call::MemAlloc { size }, Answer::Word(r)),
    {
        broadcast use vstd::std_specs::hash::group_hash_axioms;

        let returned = self.driver.perform(DriverCall::Malloc { size });
        match check(returned) {
            Ok(r) => {
                self.allocations.insert(r.word, size);
                proof {
                    self.lemma_answered(old(self), Call::MemAlloc { size }, returned);
                }
                Ok(r.word)
            },
            Err(e) => {
                proof {
                    self.lemma_answered(old(self), Call::MemAlloc { size }, returned);
                }
                Err(e)
            },
        }
    }

    fn mem_free(&mut self, dptr: u64) -> (r: Result<(), i32>)
        ensures
            final(self).answered(old(self), Call::MemFree { dptr }, Answer::Done(r)),
    {
        broadcast use vstd::std_specs::hash::group_hash_axioms;

        let returned = self.driver.perform(DriverCall::Free { dptr });
        if returned.is_some() {
            self.allocations.remove(&dptr);
        }
        proof {
            self.lemma_answered(old(self), Call::MemFree { dptr }, returned);
        }
        match check(returned) {
            Ok(_) => Ok(()),
            Err(e) => Err(e),
        }
    }

    fn memcpy_h2d(&mut self, dptr: u64, data: &[u8]) -> (r: Result<(), i32>)
        ensures
            final(self).answered(
                old(self),
                Call::MemcpyHtoD { dptr, data: data@ },
                Answer::Done(r),
            ),
    {
        let returned = self.driver.perform(
            DriverCall::CopyIn { dptr, data, kind: HIP_MEMCPY_HOST_TO_DEVICE },
        );
        proof {
            self.lemma_answered(old(self), Call::MemcpyHtoD { dptr, data: data@ }, returned);
        }
        match check(returned) {
            Ok(_) => Ok(()),
            Err(e) => Err(e),
        }
    }

    fn memcpy_d2h(&mut self, dptr: u64, size: u64) -> (r: Result<Vec<u8>, i32>)
        ensures
            final(self).answered(
                old(self),
                Call::MemcpyDtoH { dptr, size },
                Answer::Data(host::copied(r)),
            ),
            r matches Ok(data) ==> data@.len() == size,
    {
        let returned = self.driver.perform(
            DriverCall::CopyOut { dptr, size, kind: HIP_MEMCPY_DEVICE_TO_HOST },
        );
        proof {
            self.lemma_answered(old(self), Call::MemcpyDtoH { dptr, size }, returned);
        }
        match check(returned) {
            Ok(r) => Ok(r.buffer),
            Err(e) => Err(e),
        }
    }

    fn memcpy_d2d(&mut self, dst: u64, src: u64, size: u64) -> (r: Result<(), i32>)
        ensures
            final(self).answered(old(self), Call::MemcpyDtoD { dst, src, size }, Answer::Done(r)),
    {
        let returned = self.driver.perform(
            DriverCall::CopyWithin { dst, src, size, kind: HIP_MEMCPY_DEVICE_TO_DEVICE },
        );
        proof {
            self.lemma_answered(old(self), Call::MemcpyDtoD { dst, src, size }, returned);
        }
        match check(returned) {
            Ok(_) => Ok(()),
            Err(e) => Err(e),
        }
    }

    fn device_synchronize(&mut self) -> (r: Result<(), i32>)
        ensures
            final(self).answered(old(self), Call::DeviceSynchronize, Answer::Done(r)),
    {
        let returned = self.driver.perform(DriverCall::DeviceSynchronize);
        proof {
            self.lemma_answered(old(self), Call::DeviceSynchronize, returned);
        }
        match check(returned) {
            Ok(_) => Ok(()),
            Err(e) => Err(e),
        }
    }
}

/// An answer is of the kind that the call asks for, and reports an error
/// exactly where the runtime did or lacks the function.
pub proof fn law_answer_reports_failure(call: Call, returned: Option<Returned>)
    ensures
        answer_to(call, returned).suits(call),
        answer_to(call, returned).error() == failure(returned),
{
}

/// A call whose function the runtime library lacks fails and changes nothing.
pub proof fn law_missing_function_changes_nothing(held: Map<u64, u64>, call: Call)
    ensures
        answer_to(call, None).error() == Some(SYMBOL_MISSING),
        held_after(held, call, None) == held,
{
}

/// Memory that was allocated is live, with its size; all else stays as it was.
pub proof fn law_allocated_is_live(held: Map<u64, u64>, size: u64, r: Returned, other: u64)
    requires
        r.status == 0,
        other != r.word,
    ensures
        ({
            let after = held_after(held, Call::MemAlloc { size }, Some(r));
            &&& after.contains_pair(r.word, size)
            &&& after.contains_key(other) == held.contains_key(other)
            &&& held.contains_key(other) ==> after[other] == held[other]
        }),
{
}

/// Memory that was freed is not live, whatever the runtime returned; all else
/// stays as it was.
pub proof fn law_freed_is_not_live(held: Map<u64, u64>, dptr: u64, r: Returned, other: u64)
    requires
        other != dptr,
    ensures
        ({
            let after = held_after(held, Call::MemFree { dptr }, Some(r));
            &&& !after.contains_key(dptr)
            &&& after.contains_key(other) == held.contains_key(other)
            &&& held.contains_key(other) ==> after[other] == held[other]
        }),
{
}

/// Freeing what was just allocated undoes the allocation.
pub proof fn law_free_undoes_alloc(
    held: Map<u64, u64>,
    size: u64,
    allocated: Returned,
    freed: Returned,
)
    requires
        allocated.status == 0,
        !held.contains_key(allocated.word),
    ensures
        held_after(
            held_after(held, Call::MemAlloc { size }, Some(allocated)),
            Call::MemFree { dptr: allocated.word },
            Some(freed),
        ) == held,
{
    assert(held.insert(allocated.word, size).remove(allocated.word) =~= held);
}

/// Only allocating and freeing change what is live.
pub proof fn law_other_calls_keep_allocations(
    held: Map<u64, u64>,
    call: Call,
    returned: Option<Returned>,
)
    requires
        !(call is MemAlloc),
        !(call is MemFree),
    ensures
        held_after(held, call, returned) == held,
{
}

/// A copy to the host that succeeds hands over as many bytes as were asked for.
pub proof fn law_copied_has_the_size_asked_for(
    before: DeviceState,
    dptr: u64,
    size: u64,
    data: Seq<u8>,
    after: DeviceState,
)
    requires
        forwards(before, Call::MemcpyDtoH { dptr, size }, Answer::Data(Ok(data)), after),
    ensures
        data.len() == size,
{
}

/// Requests that are answered one after the other, from `states[0]` on, have
/// called of the runtime exactly the functions that they are forwarded to, in
/// their order, and each was answered by what its function returned.
pub proof fn law_requests_are_forwarded_in_order(
    states: Seq<DeviceState>,
    calls: Seq<Call>,
    answers: Seq<Answer>,
)
    requires
        states.len() == calls.len() + 1,
        answers.len() == calls.len(),
        forall|i: int|
            0 <= i < calls.len() ==> forwards(
                states[i],
                #[trigger] calls[i],
                answers[i],
                states[i + 1],
            ),
    ensures
        states.last().runtime == states[0].runtime,
        states.last().called.len() == states[0].called.len() + calls.len(),
        states[0].called.is_prefix_of(states.last().called),
        forall|i: int|
            0 <= i < calls.len() ==> {
                let done = states.last().called[states[0].called.len() + i];
                &&& done.wanted == forwarded(#[trigger] calls[i])
                &&& (states[0].runtime)(done.wanted, done.returned)
                &&& answers[i] == answer_to(calls[i], done.returned)
            },
    decreases calls.len(),
{
    let first = states[0].called;
    if calls.len() == 0 {
        assert(first =~= first.take(first.len() as int));
    } else {
        let n = calls.len() - 1;
        let before = states.drop_last();
        assert forall|i: int| 0 <= i < n implies forwards(
            before[i],
            #[trigger] calls.drop_last()[i],
            answers.drop_last()[i],
            before[i + 1],
        ) by {
            assert(calls.drop_last()[i] == calls[i]);
        }
        law_requests_are_forwarded_in_order(before, calls.drop_last(), answers.drop_last());
        assert(forwards(states[n], calls[n], answers[n], states[n + 1]));
        let middle = before.last().called;
        let all = states.last().called;
        assert(first =~= all.take(first.len() as int)) by {
            assert(first == middle.take(first.len() as int));
        }
        assert forall|i: int| 0 <= i < calls.len() implies {
            let done = all[first.len() + i];
            &&& done.wanted == forwarded(#[trigger] calls[i])
            &&& (states[0].runtime)(done.wanted, done.returned)
            &&& answers[i] == answer_to(calls[i], done.returned)
        } by {
            if i < n {
                assert(calls.drop_last()[i] == calls[i]);
                assert(all[first.len() + i] == middle[first.len() + i]);
            }
        }
    }
}

/// Whether a function of the runtime succeeded.
pub open spec fn succeeded(done: Called) -> bool {
    done.returned matches Some(r) && r.status == 0
}

/// The allocations that are live after the calls of `log`, with their sizes.
pub open spec fn live(log: Seq<Called>) -> Map<u64, u64>
    decreases log.len(),
{
    if log.len() == 0 {
        Map::empty()
    } else {
        let before = live(log.drop_last());
        match log.last() {
            Called { wanted: Wanted::Malloc { size }, returned: Some(r) } if r.status == 0 =>
                before.insert(r.word, size),
            Called { wanted: Wanted::Free { dptr }, returned: Some(_) } => before.remove(dptr),
            _ => before,
        }
    }
}

/// Whether `done`, called after the calls of `log`, may change the byte of
/// device memory at `address`.
pub open spec fn disturbs(log: Seq<Called>, done: Called, address: int) -> bool {
    match done.wanted {
        Wanted::CopyIn { dptr, data, .. } => dptr <= address < dptr + data.len(),
        Wanted::CopyWithin { dst, size, .. } => dst <= address < dst + size,
        Wanted::Malloc { size } => succeeded(done) && done.returned->Some_0.word <= address
            < done.returned->Some_0.word + size,
        Wanted::Free { dptr } => live(log).contains_key(dptr) && dptr <= address < dptr
            + live(log)[dptr],
        _ => false,
    }
}

/// Whether nothing between the `p`th and the `q`th call of `log` may change what
/// the `p`th copied to the device.
pub open spec fn undisturbed(log: Seq<Called>, p: int, q: int) -> bool {
    log[p].wanted matches Wanted::CopyIn { dptr, data, .. } ==> forall|m: int, address: int|
        p < m < q && dptr <= address < dptr + data.len() ==> !#[trigger] disturbs(
            log.take(m),
            log[m],
            address,
        )
}

/// Whether `read`, where it copies from the device as much as `write` copied to
/// the same place, and both succeeded, hands over the data of `write`.
pub open spec fn reads_back(write: Called, read: Called) -> bool {
    match (write.wanted, read.wanted) {
        (
            Wanted::CopyIn { dptr: to, data, kind: HIP_MEMCPY_HOST_TO_DEVICE },
            Wanted::CopyOut { dptr: from, size, kind: HIP_MEMCPY_DEVICE_TO_HOST },
        ) => to == from && size == data.len() && succeeded(write) && succeeded(read)
            ==> read.returned->Some_0.buffer@ == data,
        _ => true,
    }
}

/// Whether the runtime whose calls are `log` keeps device memory: what is copied
/// from it is what was last copied to it.
pub open spec fn recalls(log: Seq<Called>) -> bool {
    forall|p: int, q: int|
        0 <= p < q < log.len() && #[trigger] undisturbed(log, p, q) ==> reads_back(log[p], log[q])
}

/// The allocations that a backend tracks are those that its calls of the runtime
/// made and did not free.
pub proof fn law_tracked_allocations_are_live(
    before: DeviceState,
    call: Call,
    answer: Answer,
    after: DeviceState,
)
    requires
        before.allocations == live(before.called),
        forwards(before, call, answer, after),
    ensures
        after.allocations == live(after.called),
{
    assert(after.called.drop_last() =~= before.called);
}

/// A device name ends before the first NUL, and nothing before it is lost.
pub proof fn law_c_string(buffer: Seq<u8>)
    ensures
        c_string(buffer).is_prefix_of(buffer),
        forall|i: int| 0 <= i < c_string(buffer).len() ==> #[trigger] c_string(buffer)[i] != 0,
        c_string(buffer).len() < buffer.len() ==> buffer[c_string(buffer).len() as int] == 0,
    decreases buffer.len(),
{
    if buffer.len() > 0 && buffer[0] != 0 {
        law_c_string(buffer.skip(1));
        let tail = c_string(buffer.skip(1));
        assert(c_string(buffer) =~= buffer.take(c_string(buffer).len() as int)) by {
            assert(tail == buffer.skip(1).take(tail.len() as int));
        }
    }
}

/// The library is looked for by the path that was asked for first, if one was,
/// and then in the two usual places.
pub proof fn law_places_of_the_library(asked: Option<Seq<char>>)
    ensures
        asked matches Some(path) ==> {
            &&& candidates(asked).len() == 3
            &&& candidates(asked)[0] == path
            &&& candidates(asked).skip(1) == candidates(None)
        },
        candidates(None).len() == 2,
        candidates(None)[0] == "libamdhip64.so"@,
        candidates(None)[1] == "/opt/rocm/lib/libamdhip64.so"@,
{
    if let Some(path) = asked {
        assert(candidates(asked).skip(1) =~= candidates(None));
    }
}

/// The places of the library are tried in order, each only where all before it
/// failed: the path that was asked for, the plain name, the usual installation.
pub proof fn law_library_is_searched_in_order<D, O: for<'a> Fn(&'a str) -> Result<D, String>>(
    open: O,
    asked: Option<Seq<char>>,
    tries: Seq<Tried<D>>,
)
    requires
        searched(open, candidates(asked), tries),
    ensures
        asked is Some ==> tries.len() <= 3,
        asked is None ==> tries.len() <= 2,
        forall|i: int| 0 <= i < tries.len() - 1 ==> (#[trigger] tries[i]).outcome is Err,
        forall|i: int| 0 <= i < tries.len() ==> loader::may_open(
            open,
            (#[trigger] tries[i]).path,
            tries[i].outcome,
        ),
        asked matches Some(path) ==> {
            &&& tries.len() > 0 ==> tries[0].path == path
            &&& tries.len() > 1 ==> tries[1].path == "libamdhip64.so"@
            &&& tries.len() > 2 ==> tries[2].path == "/opt/rocm/lib/libamdhip64.so"@
        },
        asked is None ==> {
            &&& tries.len() > 0 ==> tries[0].path == "libamdhip64.so"@
            &&& tries.len() > 1 ==> tries[1].path == "/opt/rocm/lib/libamdhip64.so"@
        },
{
    let paths = candidates(asked);
    law_places_of_the_library(asked);
    if tries.len() > 0 {
        assert(tries[0].path == paths[0]);
    }
    if tries.len() > 1 {
        assert(tries[1].path == paths[1]);
    }
    if tries.len() > 2 {
        assert(tries[2].path == paths[2]);
    }
}

} // verus!
