//! What client and host are to each other: a call reaches the backend as it
//! was made, and its answer reaches the caller as it was given.

use crate::client;
use crate::client::HipRpcError;
use crate::driver::{DriverCall, Returned};
use crate::forwarding;
use crate::gpu;
use crate::gpu::RealHipBackend;
use crate::host;
use crate::host::{Answer, DeviceState, HipBackend};
use crate::proto;
use crate::proto::{Call, Fault};
use crate::stream;
use crate::stream::{IoError, Step};
use crate::text;
use vstd::prelude::*;

verus! {

/// What the caller gets where the backend's result is `r`.
pub open spec fn delivered<T>(r: Result<T, i32>) -> Result<T, HipRpcError> {
    match r {
        Ok(value) => Ok(value),
        Err(e) => Err(HipRpcError::Hip(e)),
    }
}

/// Whether every step succeeded and read as much as was asked for.
pub open spec fn went_well(steps: Seq<Step>) -> bool {
    forall|i: int|
        0 <= i < steps.len() ==> steps[i].outcome is Ok && stream::is_proper(
            #[trigger] steps[i],
        )
}

/// The data of an answer reaches the caller unchanged, and so does its error.
/// An error that is not one, status 0, reaches nobody: it reads as success.
pub proof fn law_answer_reaches_caller(answer: Answer, data: Result<Seq<u8>, HipRpcError>)
    requires
        client::means(answer.reply().payload(), data),
    ensures
        data == match answer.error() {
            None => Ok::<Seq<u8>, HipRpcError>(answer.data()),
            Some(e) => if e == 0 {
                Ok::<Seq<u8>, HipRpcError>(Seq::empty())
            } else {
                Err::<Seq<u8>, HipRpcError>(HipRpcError::Hip(e))
            },
        },
{
    proto::law_response_round_trip(answer.reply());
}

/// That a call succeeded, or its error, reaches the caller.
pub proof fn law_done_reaches_caller(
    r: Result<(), i32>,
    data: Result<Seq<u8>, HipRpcError>,
    res: Result<(), HipRpcError>,
)
    requires
        r != Err::<(), i32>(0),
        client::means(Answer::Done(r).reply().payload(), data),
        client::as_unit(data, res),
    ensures
        res == delivered(r),
{
    law_answer_reaches_caller(Answer::Done(r), data);
}

/// A device count, or the error, reaches the caller.
pub proof fn law_count_reaches_caller(
    r: Result<i32, i32>,
    data: Result<Seq<u8>, HipRpcError>,
    res: Result<i32, HipRpcError>,
)
    requires
        r != Err::<i32, i32>(0),
        client::means(Answer::Count(r).reply().payload(), data),
        client::as_count(data, res),
    ensures
        res == delivered(r),
{
    law_answer_reaches_caller(Answer::Count(r), data);
    if let Ok(n) = r {
        proto::law_count_of_bytes(n);
    }
}

/// A size or an address, or the error, reaches the caller.
pub proof fn law_word_reaches_caller(
    r: Result<u64, i32>,
    data: Result<Seq<u8>, HipRpcError>,
    short: Seq<char>,
    res: Result<u64, HipRpcError>,
)
    requires
        r != Err::<u64, i32>(0),
        client::means(Answer::Word(r).reply().payload(), data),
        client::as_word(data, short, res),
    ensures
        res == delivered(r),
{
    law_answer_reaches_caller(Answer::Word(r), data);
    if let Ok(w) = r {
        proto::law_word_of_bytes(w);
    }
}

/// A device name, or the error, reaches the caller.
pub proof fn law_name_reaches_caller(
    r: Result<Seq<char>, i32>,
    data: Result<Seq<u8>, HipRpcError>,
    res: Result<String, HipRpcError>,
)
    requires
        r != Err::<Seq<char>, i32>(0),
        client::means(Answer::Name(r).reply().payload(), data),
        client::as_text(data, res),
    ensures
        match r {
            Ok(name) => res matches Ok(s) && s@ == name,
            Err(e) => res == Err::<String, HipRpcError>(HipRpcError::Hip(e)),
        },
{
    law_answer_reaches_caller(Answer::Name(r), data);
    if let Ok(name) = r {
        text::law_text_survives(name);
    }
}

/// Copied device memory, or the error, reaches the caller.
pub proof fn law_data_reaches_caller(
    r: Result<Seq<u8>, i32>,
    data: Result<Seq<u8>, HipRpcError>,
)
    requires
        r != Err::<Seq<u8>, i32>(0),
        client::means(Answer::Data(r).reply().payload(), data),
    ensures
        data == delivered(r),
{
    law_answer_reaches_caller(Answer::Data(r), data);
}

/// One call over the wire, on both ends of it. The client's round-trip is
/// `steps`; the host read `request` in the steps `host_in`, found `answer` and
/// wrote it in the steps `host_out`. Where no operation failed and each side
/// read what the other wrote, the host saw the call as it was made, and the
/// client sees the answer as it was given. Messages over the limit, which the
/// reader refuses, are left out.
pub proof fn law_call_over_the_wire(
    call: Call,
    answer: Answer,
    steps: Seq<Step>,
    data: Result<Seq<u8>, HipRpcError>,
    host_in: Seq<Step>,
    request: Result<Seq<u8>, IoError>,
    host_out: Seq<Step>,
)
    requires
        call.fits(),
        call.payload().len() <= proto::MAX_MSG,
        answer.reply().payload().len() <= proto::MAX_MSG,
        client::exchanged(steps, call, data),
        proto::reads_msg(host_in, request),
        proto::writes_msg(host_out, answer.reply().payload(), Ok(())),
        went_well(steps),
        went_well(host_in),
        stream::received(host_in).is_prefix_of(stream::sent(steps)),
        stream::received(steps).is_prefix_of(stream::sent(host_out)),
    ensures
        request matches Ok(payload) && proto::parse_call(payload) == Ok::<Call, Fault>(call),
        client::means(answer.reply().payload(), data),
{
    let none = Seq::<u8>::empty();
    let out = steps.take(3);
    let back = steps.skip(3);
    assert(steps =~= out + back);
    if proto::writes_msg(steps, call.payload(), Err(data->Err_0->Io_0)) {
        assert(steps[steps.len() - 1].outcome is Ok);
    }
    assert(proto::writes_msg(out, call.payload(), Ok(())));
    let msg = choose|msg: Result<Seq<u8>, IoError>| #[trigger]
        proto::reads_msg(back, msg) && match msg {
            Err(e) => data == Err::<Seq<u8>, HipRpcError>(HipRpcError::Io(e)),
            Ok(payload) => client::means(payload, data),
        };
    assert forall|i: int| 0 <= i < back.len() implies back[i].outcome is Ok
        && stream::is_proper(#[trigger] back[i]) by {
        assert(back[i] == steps[i + 3]);
    }
    stream::lemma_sent_add(out, back);
    stream::lemma_received_add(out, back);
    reveal_with_fuel(stream::sent, 4);
    reveal_with_fuel(stream::received, 4);
    if back.len() == 2 {
        assert(back.drop_last().last() == back[0]);
    }
    assert(out.drop_last().last() == out[1]);
    assert(out.drop_last().drop_last().last() == out[0]);
    assert(stream::sent(back) =~= none);
    assert(stream::received(out) =~= none);
    proto::law_frame_is_sent(out, call.payload());
    proto::law_frame_is_sent(host_out, answer.reply().payload());
    assert(stream::sent(steps) =~= proto::frame(call.payload()) + none);
    assert(stream::sent(host_out) =~= proto::frame(answer.reply().payload()) + none);
    assert(stream::received(steps) =~= stream::received(back));
    proto::law_frame_is_received(out, host_in, call.payload(), none, request);
    proto::law_frame_is_received(host_out, back, answer.reply().payload(), none, msg);
    proto::law_request_round_trip(call, none);
    assert(call.payload() + none =~= call.payload());
}

/// One call over the wire, as both ends of it see it: what the client asked and
/// got, in which steps, and what the host read, answered and wrote.
pub struct Exchange {
    pub call: Call,
    pub data: Result<Seq<u8>, HipRpcError>,
    pub steps: Seq<Step>,
    pub host_in: Seq<Step>,
    pub request: Seq<u8>,
    pub answer: Answer,
    pub host_out: Seq<Step>,
}

impl Exchange {
    /// No operation failed, each side read what the other wrote, and no message
    /// was over the limit.
    pub open spec fn carried(self) -> bool {
        let reply = self.answer.reply().payload();
        &&& self.call.fits()
        &&& self.call.payload().len() <= proto::MAX_MSG
        &&& reply.len() <= proto::MAX_MSG
        &&& client::exchanged(self.steps, self.call, self.data)
        &&& proto::reads_msg(self.host_in, Ok(self.request))
        &&& proto::writes_msg(self.host_out, reply, Ok(()))
        &&& went_well(self.steps)
        &&& went_well(self.host_in)
        &&& stream::received(self.host_in).is_prefix_of(stream::sent(self.steps))
        &&& stream::received(self.steps).is_prefix_of(stream::sent(self.host_out))
    }

    /// The host decoded the request, and the backend, `before` in one state and
    /// `after` in the next, answered it.
    pub open spec fn served<B: HipBackend>(self, before: B, after: B) -> bool {
        proto::parse_call(self.request) matches Ok(call) && before.answers(
            call,
            self.answer,
            after.state(),
        ) && self.answer.suits(call)
    }

    /// The call went well to the end: the host reports no error.
    pub open spec fn succeeded(self) -> bool {
        self.data is Ok && self.answer.error() != Some(0i32)
    }
}

/// Whether all backends of this kind keep the bytes of device memory.
pub open spec fn remembers<B: HipBackend>() -> bool {
    forall|b: B, call: Call, answer: Answer, after: DeviceState| #[trigger]
        b.answers(call, answer, after) ==> host::keeps_bytes(b.state(), call, answer, after)
}

/// A call that was carried and served is answered as it was made.
proof fn lemma_exchange<B: HipBackend>(x: Exchange, before: B, after: B)
    requires
        x.carried(),
        x.served(before, after),
    ensures
        before.answers(x.call, x.answer, after.state()),
        x.answer.suits(x.call),
        client::means(x.answer.reply().payload(), x.data),
{
    law_call_over_the_wire(
        x.call,
        x.answer,
        x.steps,
        x.data,
        x.host_in,
        Ok(x.request),
        x.host_out,
    );
}

/// Bytes that nothing touches stay.
proof fn lemma_bytes_stay<B: HipBackend>(
    backends: Seq<B>,
    session: Seq<Exchange>,
    i: int,
    j: int,
    at: int,
    data: Seq<u8>,
)
    requires
        remembers::<B>(),
        backends.len() == session.len() + 1,
        0 <= i <= j <= session.len(),
        forall|k: int|
            i <= k < j ==> (#[trigger] session[k]).carried() && session[k].served(
                backends[k],
                backends[k + 1],
            ),
        forall|k: int, address: int|
            i <= k < j && at <= address < at + data.len() ==> !#[trigger] host::touches(
                backends[k].state(),
                session[k].call,
                session[k].answer,
                address,
            ),
        host::bytes_at(backends[i].state(), at, data.len()) == data,
    ensures
        host::bytes_at(backends[j].state(), at, data.len()) == data,
    decreases j - i,
{
    if i < j {
        lemma_bytes_stay(backends, session, i, j - 1, at, data);
        let k = j - 1;
        let before = backends[k].state();
        let after = backends[k + 1].state();
        assert(session[k].carried());
        lemma_exchange(session[k], backends[k], backends[k + 1]);
        assert(host::keeps_bytes(before, session[k].call, session[k].answer, after));
        assert forall|n: int| 0 <= n < data.len() implies (#[trigger] host::bytes_at(
            after,
            at,
            data.len(),
        )[n]) == data[n] by {
            assert(!host::touches(before, session[k].call, session[k].answer, at + n));
            assert((after.memory)(at + n) == (before.memory)(at + n));
            assert(host::bytes_at(before, at, data.len())[n] == (before.memory)(at + n));
        }
        assert(host::bytes_at(after, at, data.len()) =~= data);
    }
}

/// What is read from device memory is what was written to it. The client makes
/// the calls of `session` one after the other; the backend, which keeps its
/// bytes, is in the states `backends`. The `i`th call copies `data` to the
/// device, the `j`th copies as much back from there, both succeed, and nothing
/// between them touches these bytes. A status of success for an error is left
/// out.
pub proof fn law_read_gives_back_what_was_written<B: HipBackend>(
    backends: Seq<B>,
    session: Seq<Exchange>,
    i: int,
    j: int,
    dptr: u64,
    data: Seq<u8>,
)
    requires
        remembers::<B>(),
        backends.len() == session.len() + 1,
        forall|k: int|
            0 <= k < session.len() ==> (#[trigger] session[k]).carried() && session[k].served(
                backends[k],
                backends[k + 1],
            ),
        0 <= i < j < session.len(),
        session[i].call == (Call::MemcpyHtoD { dptr, data }),
        session[i].succeeded(),
        session[j].call == (Call::MemcpyDtoH { dptr, size: data.len() as u64 }),
        session[j].succeeded(),
        forall|k: int, address: int|
            i < k < j && dptr <= address < dptr + data.len() ==> !#[trigger] host::touches(
                backends[k].state(),
                session[k].call,
                session[k].answer,
                address,
            ),
    ensures
        session[j].data == Ok::<Seq<u8>, HipRpcError>(data),
{
    let at = dptr as int;
    let write = session[i];
    let read = session[j];
    assert(write.carried());
    assert(read.carried());
    lemma_exchange(write, backends[i], backends[i + 1]);
    lemma_exchange(read, backends[j], backends[j + 1]);
    law_answer_reaches_caller(write.answer, write.data);
    law_answer_reaches_caller(read.answer, read.data);
    assert(host::keeps_bytes(
        backends[i].state(),
        write.call,
        write.answer,
        backends[i + 1].state(),
    ));
    assert(host::keeps_bytes(backends[j].state(), read.call, read.answer, backends[j + 1].state()));
    assert(data.len() <= u64::MAX);
    lemma_bytes_stay(backends, session, i + 1, j, at, data);
}

/// Whether the backend over the runtime goes through `states` when it answers
/// `calls` with `answers`.
spec fn goes_through(states: Seq<DeviceState>, calls: Seq<Call>, answers: Seq<Answer>) -> bool {
    &&& states.len() == calls.len() + 1
    &&& answers.len() == calls.len()
    &&& states[0].allocations == gpu::live(states[0].called)
    &&& forall|i: int|
        0 <= i < calls.len() ==> gpu::forwards(
            states[i],
            #[trigger] calls[i],
            answers[i],
            states[i + 1],
        )
}

/// What the runtime was asked in the first `k` of the calls.
proof fn lemma_log_so_far(
    states: Seq<DeviceState>,
    calls: Seq<Call>,
    answers: Seq<Answer>,
    k: int,
)
    requires
        goes_through(states, calls, answers),
        0 <= k <= calls.len(),
    ensures
        states[k].called == states.last().called.take(states[0].called.len() + k),
        states[k].allocations == gpu::live(states[k].called),
    decreases k,
{
    let rest = states.skip(k);
    let rest_calls = calls.skip(k);
    let rest_answers = answers.skip(k);
    assert forall|i: int| 0 <= i < rest_calls.len() implies gpu::forwards(
        rest[i],
        #[trigger] rest_calls[i],
        rest_answers[i],
        rest[i + 1],
    ) by {
        assert(rest_calls[i] == calls[k + i]);
    }
    gpu::law_requests_are_forwarded_in_order(rest, rest_calls, rest_answers);
    gpu::law_requests_are_forwarded_in_order(states, calls, answers);
    assert(rest.last() == states.last());
    if k > 0 {
        lemma_log_so_far(states, calls, answers, k - 1);
        assert(gpu::forwards(states[k - 1], calls[k - 1], answers[k - 1], states[k]));
        gpu::law_tracked_allocations_are_live(
            states[k - 1],
            calls[k - 1],
            answers[k - 1],
            states[k],
        );
    }
}

/// A call of the runtime disturbs no more than the call that it was made for
/// touches.
proof fn lemma_disturbs_no_more(
    states: Seq<DeviceState>,
    calls: Seq<Call>,
    answers: Seq<Answer>,
    k: int,
    address: int,
)
    requires
        goes_through(states, calls, answers),
        0 <= k < calls.len(),
        !host::touches(states[k], calls[k], answers[k], address),
    ensures
        ({
            let log = states.last().called;
            let m = states[0].called.len() + k;
            !gpu::disturbs(log.take(m), log[m], address)
        }),
{
    lemma_log_so_far(states, calls, answers, k);
    gpu::law_requests_are_forwarded_in_order(states, calls, answers);
    let done = states.last().called[states[0].called.len() + k];
    assert(done.wanted == gpu::forwarded(calls[k]));
    assert(answers[k] == gpu::answer_to(calls[k], done.returned));
}

/// A read that succeeds is answered with what was written.
proof fn lemma_runtime_reads_back(
    states: Seq<DeviceState>,
    calls: Seq<Call>,
    answers: Seq<Answer>,
    i: int,
    j: int,
    dptr: u64,
    data: Seq<u8>,
)
    requires
        goes_through(states, calls, answers),
        gpu::recalls(states.last().called),
        0 <= i < j < calls.len(),
        data.len() <= u64::MAX,
        calls[i] == (Call::MemcpyHtoD { dptr, data }),
        answers[i].error() is None,
        calls[j] == (Call::MemcpyDtoH { dptr, size: data.len() as u64 }),
        answers[j].error() is None,
        forall|k: int, address: int|
            i < k < j && dptr <= address < dptr + data.len() ==> !#[trigger] host::touches(
                states[k],
                calls[k],
                answers[k],
                address,
            ),
    ensures
        answers[j] == Answer::Data(Ok(data)),
{
    let log = states.last().called;
    let base = states[0].called.len() as int;
    let p = base + i;
    let q = base + j;
    assert(log.len() == base + calls.len() && log[p].wanted == gpu::forwarded(calls[i])
        && log[q].wanted == gpu::forwarded(calls[j]) && answers[i] == gpu::answer_to(
        calls[i],
        log[p].returned,
    ) && answers[j] == gpu::answer_to(calls[j], log[q].returned)) by {
        gpu::law_requests_are_forwarded_in_order(states, calls, answers);
    }
    assert forall|m: int, address: int|
        p < m < q && dptr <= address < dptr + data.len() implies !#[trigger] gpu::disturbs(
        log.take(m),
        log[m],
        address,
    ) by {
        let k = m - base;
        assert(!host::touches(states[k], calls[k], answers[k], address));
        lemma_disturbs_no_more(states, calls, answers, k, address);
    }
    assert(gpu::undisturbed(log, p, q));
    assert(gpu::reads_back(log[p], log[q]));
    gpu::law_answer_reports_failure(calls[i], log[p].returned);
    gpu::law_answer_reports_failure(calls[j], log[q].returned);
}

/// The backend over the runtime reports no error that is not one.
proof fn lemma_no_false_error(
    before: DeviceState,
    call: Call,
    answer: Answer,
    after: DeviceState,
)
    requires
        gpu::forwards(before, call, answer, after),
    ensures
        answer.error() != Some(0i32),
{
}

/// What is read from the device is what was written to it, on the runtime of the
/// host. The client makes the calls of `session` one after the other; the
/// backend over the runtime is in the states `backends`, and the runtime keeps
/// device memory. The `i`th call copies `data` to the device, the `j`th copies
/// as much back from there, both succeed, and nothing between them touches these
/// bytes.
pub proof fn law_runtime_read_gives_back_what_was_written<
    D: for<'a> Fn(DriverCall<'a>) -> Option<Returned>,
>(
    backends: Seq<RealHipBackend<D>>,
    session: Seq<Exchange>,
    i: int,
    j: int,
    dptr: u64,
    data: Seq<u8>,
)
    requires
        backends.len() == session.len() + 1,
        forall|k: int|
            0 <= k < session.len() ==> (#[trigger] session[k]).carried() && session[k].served(
                backends[k],
                backends[k + 1],
            ),
        backends[0].held() == gpu::live(backends[0].driver().log()),
        gpu::recalls(backends.last().driver().log()),
        0 <= i < j < session.len(),
        session[i].call == (Call::MemcpyHtoD { dptr, data }),
        session[i].data is Ok,
        session[j].call == (Call::MemcpyDtoH { dptr, size: data.len() as u64 }),
        session[j].data is Ok,
        forall|k: int, address: int|
            i < k < j && dptr <= address < dptr + data.len() ==> !#[trigger] host::touches(
                backends[k].device(),
                session[k].call,
                session[k].answer,
                address,
            ),
    ensures
        session[j].data == Ok::<Seq<u8>, HipRpcError>(data),
{
    let states = backends.map_values(|b: RealHipBackend<D>| b.device());
    let calls = session.map_values(|x: Exchange| x.call);
    let answers = session.map_values(|x: Exchange| x.answer);
    assert forall|k: int| 0 <= k < calls.len() implies gpu::forwards(
        states[k],
        #[trigger] calls[k],
        answers[k],
        states[k + 1],
    ) by {
        assert(session[k].carried());
        lemma_exchange(session[k], backends[k], backends[k + 1]);
    }
    assert(session[i].carried() && session[j].carried());
    lemma_exchange(session[i], backends[i], backends[i + 1]);
    lemma_exchange(session[j], backends[j], backends[j + 1]);
    law_answer_reaches_caller(session[i].answer, session[i].data);
    law_answer_reaches_caller(session[j].answer, session[j].data);
    lemma_no_false_error(states[i], calls[i], answers[i], states[i + 1]);
    lemma_no_false_error(states[j], calls[j], answers[j], states[j + 1]);
    assert forall|k: int, address: int|
        i < k < j && dptr <= address < dptr + data.len() implies !#[trigger] host::touches(
        states[k],
        calls[k],
        answers[k],
        address,
    ) by {
        assert(!host::touches(backends[k].device(), session[k].call, session[k].answer, address));
    }
    lemma_runtime_reads_back(states, calls, answers, i, j, dptr, data);
}

/// Whether device memory keeps its bytes while `calls` are answered with
/// `answers`, from `states[0]` on.
pub open spec fn all_keep_bytes(
    states: Seq<DeviceState>,
    calls: Seq<Call>,
    answers: Seq<Answer>,
) -> bool {
    &&& states.len() == calls.len() + 1
    &&& answers.len() == calls.len()
    &&& forall|k: int|
        0 <= k < calls.len() ==> host::keeps_bytes(
            states[k],
            #[trigger] calls[k],
            answers[k],
            states[k + 1],
        )
}

/// Whether no call from the `i`th on and before the `j`th touches the `len`
/// bytes at `at`.
pub open spec fn untouched(
    states: Seq<DeviceState>,
    calls: Seq<Call>,
    answers: Seq<Answer>,
    i: int,
    j: int,
    at: int,
    len: nat,
) -> bool {
    forall|k: int, address: int|
        i <= k < j && at <= address < at + len ==> !#[trigger] host::touches(
            states[k],
            calls[k],
            answers[k],
            address,
        )
}

/// Bytes that no call touches stay.
proof fn lemma_untouched_stay(
    states: Seq<DeviceState>,
    calls: Seq<Call>,
    answers: Seq<Answer>,
    i: int,
    j: int,
    at: int,
    len: nat,
)
    requires
        all_keep_bytes(states, calls, answers),
        0 <= i <= j <= calls.len(),
        untouched(states, calls, answers, i, j, at, len),
    ensures
        host::bytes_at(states[j], at, len) == host::bytes_at(states[i], at, len),
    decreases j - i,
{
    if i < j {
        let k = j - 1;
        lemma_untouched_stay(states, calls, answers, i, k, at, len);
        assert(host::keeps_bytes(states[k], calls[k], answers[k], states[k + 1]));
        let before = host::bytes_at(states[k], at, len);
        let after = host::bytes_at(states[j], at, len);
        assert forall|n: int| 0 <= n < len implies #[trigger] after[n] == before[n] by {
            assert(!host::touches(states[k], calls[k], answers[k], at + n));
            assert((states[j].memory)(at + n) == (states[k].memory)(at + n));
        }
        assert(after =~= before);
    }
}

/// Data that was copied to `src`, then within the device from `src` to `dst`, is
/// what a copy from `dst` takes, where each copy is of all of it, all succeed,
/// and nothing between them touches the bytes.
pub proof fn law_bytes_follow_copies(
    states: Seq<DeviceState>,
    calls: Seq<Call>,
    answers: Seq<Answer>,
    i: int,
    j: int,
    k: int,
    src: u64,
    dst: u64,
    data: Seq<u8>,
    read: Seq<u8>,
)
    requires
        all_keep_bytes(states, calls, answers),
        0 <= i < j < k < calls.len(),
        data.len() <= u64::MAX,
        calls[i] == (Call::MemcpyHtoD { dptr: src, data }),
        answers[i] == Answer::Done(Ok(())),
        calls[j] == (Call::MemcpyDtoD { dst, src, size: data.len() as u64 }),
        answers[j] == Answer::Done(Ok(())),
        calls[k] == (Call::MemcpyDtoH { dptr: dst, size: data.len() as u64 }),
        answers[k] == Answer::Data(Ok(read)),
        untouched(states, calls, answers, i + 1, j, src as int, data.len()),
        untouched(states, calls, answers, j + 1, k, dst as int, data.len()),
    ensures
        read == data,
{
    assert(host::keeps_bytes(states[i], calls[i], answers[i], states[i + 1]));
    assert(host::keeps_bytes(states[j], calls[j], answers[j], states[j + 1]));
    assert(host::keeps_bytes(states[k], calls[k], answers[k], states[k + 1]));
    lemma_untouched_stay(states, calls, answers, i + 1, j, src as int, data.len());
    lemma_untouched_stay(states, calls, answers, j + 1, k, dst as int, data.len());
}

/// What the client reads of a copy within the device is what was written to its
/// source, on the runtime of the host. The client makes the calls of `session`
/// one after the other; the backend over the runtime is in the states
/// `backends`, and device memory, which the runtime keeps, holds `memories`. The
/// `i`th call copies `data` to `src`, the `j`th copies as much from `src` to
/// `dst`, the `k`th copies as much back from `dst`; all succeed, and nothing
/// between them touches the bytes.
pub proof fn law_runtime_copy_within_is_read_back<
    D: for<'a> Fn(DriverCall<'a>) -> Option<Returned>,
>(
    backends: Seq<RealHipBackend<D>>,
    memories: Seq<spec_fn(int) -> u8>,
    session: Seq<Exchange>,
    i: int,
    j: int,
    k: int,
    src: u64,
    dst: u64,
    data: Seq<u8>,
)
    requires
        backends.len() == session.len() + 1,
        memories.len() == backends.len(),
        forall|n: int|
            0 <= n < session.len() ==> (#[trigger] session[n]).carried() && session[n].served(
                backends[n],
                backends[n + 1],
            ) && forwarding::acts_on_memory(
                backends[n].driver().log(),
                memories[n],
                backends[n + 1].driver().log().last(),
                memories[n + 1],
            ),
        backends[0].held() == gpu::live(backends[0].driver().log()),
        0 <= i < j < k < session.len(),
        session[i].call == (Call::MemcpyHtoD { dptr: src, data }),
        session[i].data is Ok,
        session[j].call == (Call::MemcpyDtoD { dst, src, size: data.len() as u64 }),
        session[j].data is Ok,
        session[k].call == (Call::MemcpyDtoH { dptr: dst, size: data.len() as u64 }),
        session[k].data is Ok,
        forall|n: int, address: int|
            i < n < j && src <= address < src + data.len() ==> !#[trigger] host::touches(
                backends[n].device(),
                session[n].call,
                session[n].answer,
                address,
            ),
        forall|n: int, address: int|
            j < n < k && dst <= address < dst + data.len() ==> !#[trigger] host::touches(
                backends[n].device(),
                session[n].call,
                session[n].answer,
                address,
            ),
    ensures
        session[k].data == Ok::<Seq<u8>, HipRpcError>(data),
{
    let devices = backends.map_values(|b: RealHipBackend<D>| b.device());
    let states = Seq::new(
        backends.len(),
        |n: int| forwarding::holding(backends[n].device(), memories[n]),
    );
    let calls = session.map_values(|x: Exchange| x.call);
    let answers = session.map_values(|x: Exchange| x.answer);
    assert forall|n: int| 0 <= n < calls.len() implies gpu::forwards(
        devices[n],
        #[trigger] calls[n],
        answers[n],
        devices[n + 1],
    ) by {
        assert(session[n].carried());
        lemma_exchange(session[n], backends[n], backends[n + 1]);
    }
    assert(goes_through(devices, calls, answers));
    assert forall|n: int| 0 <= n < calls.len() implies host::keeps_bytes(
        states[n],
        #[trigger] calls[n],
        answers[n],
        states[n + 1],
    ) by {
        lemma_log_so_far(devices, calls, answers, n);
        assert(session[n].carried());
        assert(gpu::forwards(devices[n], calls[n], answers[n], devices[n + 1]));
        forwarding::law_requests_do_what_they_say(
            devices[n],
            memories[n],
            calls[n],
            answers[n],
            devices[n + 1],
            memories[n + 1],
        );
    }
    lemma_caller_sees(session[i], backends[i], backends[i + 1]);
    lemma_caller_sees(session[j], backends[j], backends[j + 1]);
    lemma_caller_sees(session[k], backends[k], backends[k + 1]);
    assert forall|n: int, address: int|
        i + 1 <= n < j && src <= address < src + data.len() implies !#[trigger] host::touches(
        states[n],
        calls[n],
        answers[n],
        address,
    ) by {
        assert(!host::touches(backends[n].device(), session[n].call, session[n].answer, address));
    }
    assert forall|n: int, address: int|
        j + 1 <= n < k && dst <= address < dst + data.len() implies !#[trigger] host::touches(
        states[n],
        calls[n],
        answers[n],
        address,
    ) by {
        assert(!host::touches(backends[n].device(), session[n].call, session[n].answer, address));
    }
    let read = session[k].answer->Data_0->Ok_0;
    law_bytes_follow_copies(states, calls, answers, i, j, k, src, dst, data, read);
}

/// What the caller sees of a call on the runtime that succeeds.
proof fn lemma_caller_sees<D: for<'a> Fn(DriverCall<'a>) -> Option<Returned>>(
    x: Exchange,
    before: RealHipBackend<D>,
    after: RealHipBackend<D>,
)
    requires
        x.carried(),
        x.served(before, after),
        x.data is Ok,
    ensures
        x.answer.suits(x.call),
        x.answer.error() is None,
        x.data == Ok::<Seq<u8>, HipRpcError>(x.answer.data()),
        x.call.fits(),
{
    lemma_exchange(x, before, after);
    law_answer_reaches_caller(x.answer, x.data);
    lemma_no_false_error(before.device(), x.call, x.answer, after.device());
}

} // verus!
