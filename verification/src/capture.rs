//! Reading a bounded part of a stream, all of which must be there.

use crate::stream;
use crate::stream::{Action, Asked, IoError, IoErrorKind, Step, Stream};
use vstd::prelude::*;

verus! {

/// How many bytes a copy asks for at a time.
pub const COPY_BUFFER: usize = 8192;

/// A stream of which only the next `remaining` bytes may be read, and all of
/// them must be there.
pub struct ExactStream<S> {
    pub source: Stream<S>,
    pub remaining: u64,
}

/// How many bytes one read into a buffer of `capacity` bytes asks for when
/// `remaining` bytes are still owed.
pub open spec fn ask(remaining: nat, capacity: nat) -> nat {
    if remaining < capacity {
        remaining
    } else {
        capacity
    }
}

/// Whether `e` says that the stream ended before all its bytes were read.
pub open spec fn is_short(e: IoError) -> bool {
    e.says(IoErrorKind::UnexpectedEof, "short RAM stream"@)
}

/// What one read of at most `n` bytes, `n` not 0, hands to the caller.
pub open spec fn bounded_read(
    outcome: Result<Seq<u8>, IoError>,
    res: Result<Seq<u8>, IoError>,
) -> bool {
    match outcome {
        Ok(bytes) if bytes.len() == 0 => res matches Err(e) && is_short(e),
        _ => res == outcome,
    }
}

/// What a read asks for, where interrupted reads are to be repeated or not.
pub open spec fn asked_read(repeated: bool, n: nat) -> Asked {
    if repeated {
        Asked::ReadUninterrupted(n)
    } else {
        Asked::Read(n)
    }
}

/// One read from a bounded stream.
fn read_bounded<S: for<'a> Fn(Action<'a>) -> Result<Vec<u8>, IoError>>(
    source: &mut Stream<S>,
    remaining: &mut u64,
    capacity: usize,
    repeated: bool,
) -> (res: Result<Vec<u8>, IoError>)
    requires
        old(source).wf(),
    ensures
        final(source).wf(),
        ask(*old(remaining) as nat, capacity as nat) == 0 ==> {
            &&& *final(source) == *old(source)
            &&& *final(remaining) == *old(remaining)
            &&& res matches Ok(bytes) && bytes@.len() == 0
        },
        ask(*old(remaining) as nat, capacity as nat) > 0 ==> exists|step: Step| #[trigger]
            final(source).ran(old(source), seq![step]) && step.asked == asked_read(
                repeated,
                ask(*old(remaining) as nat, capacity as nat),
            ) && bounded_read(step.outcome, stream::seen(res)),
        match res {
            Ok(bytes) => bytes@.len() <= *old(remaining) && *final(remaining) == *old(remaining)
                - bytes@.len(),
            Err(_) => *final(remaining) == *old(remaining),
        },
{
    let count: usize = if *remaining < capacity as u64 {
        *remaining as usize
    } else {
        capacity
    };
    if count == 0 {
        return Ok(Vec::new());
    }
    let action = if repeated {
        Action::ReadUninterrupted(count)
    } else {
        Action::Read(count)
    };
    let read = source.perform(action);
    let ghost step = Step {
        asked: asked_read(repeated, count as nat),
        outcome: stream::seen(read),
    };
    assert(source.ran(old(source), seq![step]));
    match read {
        Err(e) => Err(e),
        Ok(bytes) => {
            if bytes.len() == 0 {
                return Err(IoError::new(IoErrorKind::UnexpectedEof, "short RAM stream"));
            }
            *remaining = *remaining - bytes.len() as u64;
            Ok(bytes)
        },
    }
}

/// Whether the `i`th read and the `i`th write are a whole round of a copy of
/// `total` bytes: the read asks for as much as the buffer holds and is still
/// owed, and what it got is written. An interrupted read is repeated.
pub open spec fn is_round(reads: Seq<Step>, writes: Seq<Step>, total: nat, i: int) -> bool {
    &&& reads[i].asked == asked_next(reads.take(i), total)
    &&& reads[i].outcome matches Ok(bytes) && bytes.len() > 0 && writes[i].asked
        == Asked::WriteAll(bytes)
    &&& writes[i].outcome is Ok
}

/// Whether `reads` and `writes` are whole rounds of a copy of `total` bytes.
pub open spec fn rounds(reads: Seq<Step>, writes: Seq<Step>, total: nat) -> bool {
    &&& reads.len() == writes.len()
    &&& stream::received(reads).len() <= total
    &&& forall|i: int| 0 <= i < reads.len() ==> #[trigger] is_round(reads, writes, total, i)
}

/// What a copy of `total` bytes reads after `reads`.
pub open spec fn asked_next(reads: Seq<Step>, total: nat) -> Asked {
    Asked::ReadUninterrupted(
        ask((total - stream::received(reads).len()) as nat, COPY_BUFFER as nat),
    )
}

/// Whether `reads` and `writes` are a copy of `total` bytes that ends in `res`:
/// whole rounds until everything is copied, or until a read or a write fails or
/// the source is at its end.
pub open spec fn copies(
    reads: Seq<Step>,
    writes: Seq<Step>,
    total: nat,
    res: Result<u64, IoError>,
) -> bool {
    match res {
        Ok(n) => rounds(reads, writes, total) && stream::received(reads).len() == total && n
            == total,
        Err(e) => {
            &&& reads.len() > 0
            &&& stream::received(reads.drop_last()).len() < total
            &&& reads.last().asked == asked_next(reads.drop_last(), total)
            &&& if writes.len() < reads.len() {
                &&& rounds(reads.drop_last(), writes, total)
                &&& bounded_read(reads.last().outcome, Err(e))
            } else {
                &&& rounds(reads.drop_last(), writes.drop_last(), total)
                &&& reads.last().outcome matches Ok(bytes) && bytes.len() > 0
                    && writes.last().asked == Asked::WriteAll(bytes)
                &&& writes.last().outcome == Err::<Seq<u8>, IoError>(e)
            }
        },
    }
}

/// One more read enlarges what was received.
pub(crate) proof fn lemma_received_push(steps: Seq<Step>, step: Step)
    ensures
        stream::received(steps.push(step)) == stream::received(steps) + match step {
            Step { asked: Asked::ReadExact(_), outcome: Ok(bytes) } => bytes,
            Step { asked: Asked::Read(_), outcome: Ok(bytes) } => bytes,
            Step { asked: Asked::ReadUninterrupted(_), outcome: Ok(bytes) } => bytes,
            _ => Seq::empty(),
        },
{
    assert(steps.push(step).drop_last() =~= steps);
}

/// A round that follows whole rounds makes whole rounds.
proof fn lemma_round(reads: Seq<Step>, writes: Seq<Step>, read: Step, write: Step, total: nat)
    requires
        rounds(reads, writes, total),
        read.asked == asked_next(reads, total),
        read.outcome matches Ok(bytes) && bytes.len() > 0 && write.asked == Asked::WriteAll(bytes),
        write.outcome is Ok,
        stream::received(reads.push(read)).len() <= total,
    ensures
        rounds(reads.push(read), writes.push(write), total),
{
    let r = reads.push(read);
    let w = writes.push(write);
    assert forall|i: int| 0 <= i < r.len() implies #[trigger] is_round(r, w, total, i) by {
        assert(r.take(i) =~= reads.take(i));
        if i < reads.len() {
            assert(is_round(reads, writes, total, i));
        } else {
            assert(reads.take(i) =~= reads);
        }
    }
}

/// Copies the `remaining` next bytes of `source` to `sink`.
pub(crate) fn copy_remaining<
    R: for<'a> Fn(Action<'a>) -> Result<Vec<u8>, IoError>,
    W: for<'a> Fn(Action<'a>) -> Result<Vec<u8>, IoError>,
>(source: &mut Stream<R>, remaining: &mut u64, sink: &mut Stream<W>) -> (res: Result<u64, IoError>)
    requires
        old(source).wf(),
        old(sink).wf(),
    ensures
        exists|reads: Seq<Step>, writes: Seq<Step>|
            #![trigger final(source).ran(old(source), reads), final(sink).ran(old(sink), writes)]
            final(source).ran(old(source), reads) && final(sink).ran(old(sink), writes)
                && copies(reads, writes, *old(remaining) as nat, res) && *final(remaining) == *old(
                remaining,
            ) - stream::received(reads).len(),
{
    let total: u64 = *remaining;
    let ghost mut reads: Seq<Step> = Seq::empty();
    let ghost mut writes: Seq<Step> = Seq::empty();
    assert(source.ran(old(source), reads) && sink.ran(old(sink), writes));
    while *remaining > 0
        invariant
            source.ran(old(source), reads),
            sink.ran(old(sink), writes),
            rounds(reads, writes, total as nat),
            stream::received(reads).len() + *remaining == total == *old(remaining),
        decreases *remaining,
    {
        let ghost source_before = *source;
        let ghost sink_before = *sink;
        let read = read_bounded(source, remaining, COPY_BUFFER, true);
        let ghost reading = choose|step: Step| #[trigger]
            source.ran(&source_before, seq![step]) && step.asked == asked_next(reads, total as nat)
                && bounded_read(step.outcome, stream::seen(read));
        proof {
            assert(source.log() =~= old(source).log() + reads.push(reading));
            assert(source.ran(old(source), reads.push(reading)));
            assert(reads.push(reading).drop_last() =~= reads);
            lemma_received_push(reads, reading);
        }
        match read {
            Err(e) => {
                assert(copies(reads.push(reading), writes, total as nat, Err(e)));
                return Err(e);
            },
            Ok(bytes) => {
                let written = sink.perform(Action::WriteAll(bytes.as_slice()));
                let ghost writing = Step {
                    asked: Asked::WriteAll(bytes@),
                    outcome: stream::seen(written),
                };
                proof {
                    assert(sink.log() =~= old(sink).log() + writes.push(writing));
                    assert(sink.ran(old(sink), writes.push(writing)));
                    assert(writes.push(writing).drop_last() =~= writes);
                }
                if let Err(e) = written {
                    assert(copies(
                        reads.push(reading),
                        writes.push(writing),
                        total as nat,
                        Err(e),
                    ));
                    return Err(e);
                }
                proof {
                    lemma_round(reads, writes, reading, writing, total as nat);
                    reads = reads.push(reading);
                    writes = writes.push(writing);
                }
            },
        }
    }
    Ok(total)
}

impl<S: for<'a> Fn(Action<'a>) -> Result<Vec<u8>, IoError>> ExactStream<S> {
    /// Reads once, at most `capacity` bytes and never past the end of the
    /// part. No bytes at all mean that the part is complete.
    pub fn read(&mut self, capacity: usize) -> (res: Result<Vec<u8>, IoError>)
        requires
            old(self).source.wf(),
        ensures
            final(self).source.wf(),
            ask(old(self).remaining as nat, capacity as nat) == 0 ==> {
                &&& *final(self) == *old(self)
                &&& res matches Ok(bytes) && bytes@.len() == 0
            },
            ask(old(self).remaining as nat, capacity as nat) > 0 ==> exists|step: Step| #[trigger]
                final(self).source.ran(&old(self).source, seq![step]) && step.asked == Asked::Read(
                    ask(old(self).remaining as nat, capacity as nat),
                ) && bounded_read(step.outcome, stream::seen(res)),
            match res {
                Ok(bytes) => bytes@.len() <= old(self).remaining && final(self).remaining == old(
                    self,
                ).remaining - bytes@.len(),
                Err(_) => final(self).remaining == old(self).remaining,
            },
    {
        read_bounded(&mut self.source, &mut self.remaining, capacity, false)
    }

    /// Copies all that remains to `sink` and returns how much that was.
    pub fn copy_to<W: for<'a> Fn(Action<'a>) -> Result<Vec<u8>, IoError>>(
        &mut self,
        sink: &mut Stream<W>,
    ) -> (res: Result<u64, IoError>)
        requires
            old(self).source.wf(),
            old(sink).wf(),
        ensures
            exists|reads: Seq<Step>, writes: Seq<Step>|
                #![trigger final(self).source.ran(&old(self).source, reads), final(sink).ran(old(sink), writes)]
                final(self).source.ran(&old(self).source, reads) && final(sink).ran(
                    old(sink),
                    writes,
                ) && copies(reads, writes, old(self).remaining as nat, res)
                    && final(self).remaining == old(self).remaining - stream::received(reads).len(),
    {
        let ghost sink_before = *sink;
        let res = copy_remaining(&mut self.source, &mut self.remaining, sink);
        proof {
            let source = self.source;
            let source_before = old(self).source;
            let total = old(self).remaining as nat;
            let (reads, writes) = choose|reads: Seq<Step>, writes: Seq<Step>|
                #![trigger source.ran(&source_before, reads), sink.ran(&sink_before, writes)]
                source.ran(&source_before, reads) && sink.ran(&sink_before, writes) && copies(
                    reads,
                    writes,
                    total,
                    res,
                ) && self.remaining == total - stream::received(reads).len();
            assert(source.ran(&source_before, reads));
            assert(sink.ran(&sink_before, writes));
        }
        res
    }
}

/// Whole rounds write what they read.
pub(crate) proof fn lemma_rounds_sent(reads: Seq<Step>, writes: Seq<Step>, total: nat)
    requires
        rounds(reads, writes, total),
    ensures
        stream::sent(writes) == stream::received(reads),
    decreases reads.len(),
{
    if reads.len() > 0 {
        let n = reads.len() - 1;
        let r = reads.drop_last();
        let w = writes.drop_last();
        assert forall|i: int| 0 <= i < r.len() implies #[trigger] is_round(
            r,
            w,
            total,
            i,
        ) by {
            assert(is_round(reads, writes, total, i));
            assert(r.take(i) =~= reads.take(i));
        }
        assert(is_round(reads, writes, total, n));
        lemma_rounds_sent(r, w, total);
        assert(stream::sent(writes) =~= stream::received(reads));
    }
}

/// No round of a copy seeks.
pub(crate) proof fn lemma_rounds_do_not_seek(reads: Seq<Step>, writes: Seq<Step>, total: nat)
    requires
        rounds(reads, writes, total),
    ensures
        forall|i: int| 0 <= i < reads.len() ==> !((#[trigger] reads[i]).asked is Seek),
{
    assert forall|i: int| 0 <= i < reads.len() implies !((#[trigger] reads[i]).asked is Seek) by {
        assert(is_round(reads, writes, total, i));
    }
}

/// A copy that succeeds has written exactly the part that it was to copy, and
/// leaves the source right behind it: what follows is still there to be read.
pub proof fn law_copy_takes_exactly_the_part(
    reads: Seq<Step>,
    writes: Seq<Step>,
    total: nat,
    n: u64,
    data: Seq<u8>,
    start: int,
)
    requires
        copies(reads, writes, total, Ok(n)),
        stream::faithful(reads, data, start),
        0 <= start <= data.len(),
    ensures
        n == total,
        start + total <= data.len(),
        stream::sent(writes) == data.subrange(start, start + total),
        stream::position(reads, start) == start + total,
{
    lemma_rounds_sent(reads, writes, total);
    lemma_rounds_do_not_seek(reads, writes, total);
    stream::lemma_faithful_received(reads, data, start);
    assert(stream::sent(writes) =~= data.subrange(start, start + total));
}

/// A copy of more than the source holds fails; where no read or write failed by
/// itself, it fails because the source is too short.
pub proof fn law_truncation_is_rejected(
    reads: Seq<Step>,
    writes: Seq<Step>,
    total: nat,
    res: Result<u64, IoError>,
    data: Seq<u8>,
    start: int,
)
    requires
        copies(reads, writes, total, res),
        stream::faithful(reads, data, start),
        0 <= start <= data.len() < start + total,
    ensures
        res is Err,
        stream::all_went_well(reads) && stream::all_went_well(writes) ==> is_short(res->Err_0),
{
    if let Ok(n) = res {
        law_copy_takes_exactly_the_part(reads, writes, total, n, data, start);
    }
    if stream::all_went_well(reads) && stream::all_went_well(writes) {
        assert(reads[reads.len() - 1].outcome is Ok);
        if writes.len() >= reads.len() {
            assert(writes[writes.len() - 1].outcome is Ok);
        }
    }
}

/// No interruption ends a copy.
pub proof fn law_interruption_does_not_end_a_copy(
    reads: Seq<Step>,
    writes: Seq<Step>,
    total: nat,
    e: IoError,
)
    requires
        copies(reads, writes, total, Err(e)),
        forall|i: int| 0 <= i < reads.len() ==> stream::is_proper(#[trigger] reads[i]),
        forall|i: int| 0 <= i < writes.len() ==> stream::is_proper(#[trigger] writes[i]),
    ensures
        e.kind != IoErrorKind::Interrupted,
{
    assert(stream::is_proper(reads[reads.len() - 1]));
    if writes.len() >= reads.len() {
        assert(stream::is_proper(writes[writes.len() - 1]));
    }
}

/// No copy, whatever becomes of it, reads more than the part that it was to
/// copy.
pub proof fn law_copy_stays_in_the_part(
    reads: Seq<Step>,
    writes: Seq<Step>,
    total: nat,
    res: Result<u64, IoError>,
)
    requires
        copies(reads, writes, total, res),
        forall|i: int| 0 <= i < reads.len() ==> stream::is_proper(#[trigger] reads[i]),
    ensures
        stream::received(reads).len() <= total,
{
    if res is Err {
        assert(stream::is_proper(reads[reads.len() - 1]));
    }
}

/// One read asks for no more than is owed and no more than there is room for,
/// and for all of one of them.
pub proof fn law_read_asks_for_what_is_owed(remaining: nat, capacity: nat)
    ensures
        ask(remaining, capacity) <= remaining,
        ask(remaining, capacity) <= capacity,
        ask(remaining, capacity) == remaining || ask(remaining, capacity) == capacity,
        ask(remaining, capacity) == 0 <==> remaining == 0 || capacity == 0,
{
}

/// A read hands over what the source gave; that the source is at its end, while
/// bytes are owed, is an error.
pub proof fn law_read_hands_over_what_it_got(
    outcome: Result<Seq<u8>, IoError>,
    res: Result<Seq<u8>, IoError>,
)
    requires
        bounded_read(outcome, res),
    ensures
        outcome is Err ==> res == outcome,
        outcome matches Ok(bytes) ==> {
            &&& bytes.len() > 0 ==> res == outcome
            &&& bytes.len() == 0 ==> (res matches Err(e) && e.says(
                IoErrorKind::UnexpectedEof,
                "short RAM stream"@,
            ))
        },
{
}

/// A copy that fails reports the failure that ended it: that of the last read,
/// that of the last write, or that the source was at its end. What it wrote
/// before that is what it read, in order.
pub proof fn law_copy_reports_its_failure(
    reads: Seq<Step>,
    writes: Seq<Step>,
    total: nat,
    e: IoError,
)
    requires
        copies(reads, writes, total, Err(e)),
    ensures
        reads.len() > 0,
        ({
            ||| reads.last().outcome == Err::<Seq<u8>, IoError>(e)
            ||| writes.len() == reads.len() && writes.last().outcome == Err::<Seq<u8>, IoError>(e)
            ||| {
                &&& reads.last().outcome matches Ok(bytes) && bytes.len() == 0
                &&& e.says(IoErrorKind::UnexpectedEof, "short RAM stream"@)
            }
        }),
        writes.len() == reads.len() || writes.len() == reads.len() - 1,
        stream::sent(writes) == stream::received(reads.drop_last()),
{
    if writes.len() < reads.len() {
        lemma_rounds_sent(reads.drop_last(), writes, total);
    } else {
        lemma_rounds_sent(reads.drop_last(), writes.drop_last(), total);
        assert(stream::sent(writes) =~= stream::sent(writes.drop_last()));
    }
}

/// Every read of a copy asks for all that is still owed, or for 8192 bytes where
/// more is owed than that.
pub proof fn law_copy_asks_for_what_is_owed(
    reads: Seq<Step>,
    writes: Seq<Step>,
    total: nat,
    res: Result<u64, IoError>,
    i: int,
)
    requires
        copies(reads, writes, total, res),
        0 <= i < reads.len(),
    ensures
        ({
            let owed = total - stream::received(reads.take(i)).len();
            reads[i].asked == Asked::ReadUninterrupted(
                if owed < 8192 {
                    owed as nat
                } else {
                    8192
                },
            )
        }),
{
    match res {
        Ok(_) => {
            assert(is_round(reads, writes, total, i));
            stream::lemma_received_add(reads.take(i), reads.skip(i));
            assert(reads.take(i) + reads.skip(i) =~= reads);
        },
        Err(_) => {
            let before = reads.drop_last();
            stream::lemma_received_add(before.take(i), before.skip(i));
            assert(before.take(i) + before.skip(i) =~= before);
            if i < before.len() {
                if writes.len() < reads.len() {
                    assert(is_round(before, writes, total, i));
                } else {
                    assert(is_round(before, writes.drop_last(), total, i));
                }
                assert(before.take(i) =~= reads.take(i));
            } else {
                assert(before =~= reads.take(i));
            }
        },
    }
}

} // verus!
