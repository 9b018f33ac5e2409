//! The extents of a memory image: the parts that hold anything but zeros.

use crate::capture;
use crate::stream;
use crate::stream::{Action, Asked, IoError, IoErrorKind, Step, Stream};
use vstd::prelude::*;

verus! {

/// How much of a memory image is looked at as a whole.
pub const CHUNK: usize = 65536;

/// How many separate extents a memory image may have.
pub const MAX_EXTENTS: usize = 65536;

/// Whether there is nothing but zeros in `bytes`.
pub open spec fn is_zero(bytes: Seq<u8>) -> bool {
    forall|i: int| 0 <= i < bytes.len() ==> bytes[i] == 0
}

/// The extents `map` and, unless it is all zeros, the chunk at `offset`, which
/// continues the last extent where it touches it.
pub open spec fn extended(map: Seq<(u64, u64)>, offset: nat, chunk: Seq<u8>) -> Seq<(u64, u64)> {
    if is_zero(chunk) {
        map
    } else if map.len() > 0 && map.last().0 + map.last().1 == offset {
        map.drop_last().push((map.last().0, (map.last().1 + chunk.len()) as u64))
    } else {
        map.push((offset as u64, chunk.len() as u64))
    }
}

/// Where the last chunk of `len` bytes starts.
pub open spec fn last_chunk(len: nat) -> nat {
    ((len - 1) / CHUNK as int * CHUNK) as nat
}

/// The extents of `data`, as offset and length: the maximal runs of chunks that
/// are not all zeros.
pub open spec fn runs(data: Seq<u8>) -> Seq<(u64, u64)>
    decreases data.len(),
{
    if data.len() == 0 {
        Seq::empty()
    } else {
        let offset = last_chunk(data.len());
        extended(runs(data.take(offset as int)), offset, data.skip(offset as int))
    }
}

/// The sparse map of `data`: its extents, then an empty one at its end.
pub open spec fn sparse_map(data: Seq<u8>) -> Seq<(u64, u64)> {
    runs(data).push((data.len() as u64, 0))
}

/// What a scan of `logical` bytes reads after `i` chunks.
pub open spec fn asked_chunk(logical: nat, i: int) -> Asked {
    Asked::ReadExact(capture::ask((logical - i * CHUNK) as nat, CHUNK as nat))
}

/// Whether `steps` are a scan of `logical` bytes that ends in `res`: chunk after
/// chunk is read until all are, or until a read fails, or until there are too
/// many extents.
pub open spec fn scans(
    steps: Seq<Step>,
    logical: nat,
    res: Result<Seq<(u64, u64)>, IoError>,
) -> bool {
    &&& forall|i: int|
        0 <= i < steps.len() ==> i * CHUNK < logical && (#[trigger] steps[i]).asked == asked_chunk(
            logical,
            i,
        )
    &&& forall|i: int| 0 <= i < steps.len() - 1 ==> (#[trigger] steps[i]).outcome is Ok
    &&& steps.len() > 0 ==> runs(stream::received(steps.drop_last())).len() <= MAX_EXTENTS
    &&& match res {
        Ok(map) => {
            &&& steps.len() > 0 ==> steps.last().outcome is Ok
            &&& stream::received(steps).len() == logical
            &&& runs(stream::received(steps)).len() <= MAX_EXTENTS
            &&& map == sparse_map(stream::received(steps))
        },
        Err(e) => {
            &&& steps.len() > 0
            &&& match steps.last().outcome {
                Ok(_) => runs(stream::received(steps)).len() > MAX_EXTENTS && e.says(
                    IoErrorKind::Other,
                    "prototype sparse map limit exceeded"@,
                ),
                Err(failure) => e == failure,
            }
        },
    }
}

/// Whether any byte is not zero.
fn any_nonzero(bytes: &[u8]) -> (found: bool)
    ensures
        found == !is_zero(bytes@),
{
    let mut i: usize = 0;
    while i < bytes.len()
        invariant
            i <= bytes@.len(),
            forall|k: int| 0 <= k < i ==> bytes@[k] == 0,
        decreases bytes@.len() - i,
    {
        if bytes[i] != 0 {
            return true;
        }
        i = i + 1;
    }
    false
}

/// Enters the chunk at `offset` into the extents found so far.
pub fn extend_map(extents: &mut Vec<(u64, u64)>, offset: u64, chunk: &[u8]) -> (res: Result<
    (),
    IoError,
>)
    requires
        old(extents)@.len() > 0 ==> old(extents)@.last().0 + old(extents)@.last().1 <= offset,
        offset + chunk@.len() <= u64::MAX,
    ensures
        match res {
            Ok(_) => {
                &&& final(extents)@ == extended(old(extents)@, offset as nat, chunk@)
                &&& old(extents)@.len() == MAX_EXTENTS ==> final(extents)@.len() == MAX_EXTENTS
            },
            Err(e) => {
                &&& final(extents)@ == old(extents)@
                &&& old(extents)@.len() == MAX_EXTENTS
                &&& extended(old(extents)@, offset as nat, chunk@).len() > MAX_EXTENTS
                &&& e.says(IoErrorKind::Other, "prototype sparse map limit exceeded"@)
            },
        },
{
    if any_nonzero(chunk) {
        let count: u64 = chunk.len() as u64;
        let n: usize = extents.len();
        if n > 0 {
            let (start, len): (u64, u64) = extents[n - 1];
            if start + len == offset {
                extents.set(n - 1, (start, len + count));
                assert(extents@ =~= extended(old(extents)@, offset as nat, chunk@));
                return Ok(());
            }
        }
        if n == MAX_EXTENTS {
            return Err(IoError::new(IoErrorKind::Other, "prototype sparse map limit exceeded"));
        }
        extents.push((offset, count));
    }
    Ok(())
}

/// No extent ends behind the data.
proof fn lemma_runs_end(data: Seq<u8>)
    requires
        data.len() <= u64::MAX,
    ensures
        forall|i: int| #![trigger runs(data)[i]]
            0 <= i < runs(data).len() ==> runs(data)[i].1 > 0 && runs(data)[i].0
                + runs(data)[i].1 <= data.len(),
    decreases data.len(),
{
    if data.len() > 0 {
        let offset = last_chunk(data.len());
        let prev = runs(data.take(offset as int));
        lemma_runs_end(data.take(offset as int));
        assert forall|i: int| #![trigger runs(data)[i]] 0 <= i < runs(data).len() implies runs(
            data,
        )[i].1 > 0 && runs(data)[i].0 + runs(data)[i].1 <= data.len() by {
            if i < prev.len() {
                assert(prev[i].1 > 0 && prev[i].0 + prev[i].1 <= offset);
            }
        }
    }
}

/// Appending a chunk to whole chunks extends their extents by that chunk.
proof fn lemma_runs_extended(data: Seq<u8>, chunk: Seq<u8>)
    requires
        data.len() % CHUNK as nat == 0,
        0 < chunk.len() <= CHUNK,
    ensures
        runs(data + chunk) == extended(runs(data), data.len(), chunk),
{
    let all = data + chunk;
    assert(last_chunk(all.len()) == data.len());
    assert(all.take(data.len() as int) =~= data);
    assert(all.skip(data.len() as int) =~= chunk);
}

/// The sparse map of the first `logical` bytes of `reader`.
pub fn scan_extents<S: for<'a> Fn(Action<'a>) -> Result<Vec<u8>, IoError>>(
    reader: &mut Stream<S>,
    logical: u64,
) -> (res: Result<Vec<(u64, u64)>, IoError>)
    requires
        old(reader).wf(),
    ensures
        exists|steps: Seq<Step>| #[trigger]
            final(reader).ran(old(reader), steps) && scans(
                steps,
                logical as nat,
                match res {
                    Ok(map) => Ok(map@),
                    Err(e) => Err(e),
                },
            ),
{
    let mut extents: Vec<(u64, u64)> = Vec::new();
    let mut offset: u64 = 0;
    let ghost mut steps: Seq<Step> = Seq::empty();
    assert(reader.ran(old(reader), steps));
    while offset < logical
        invariant
            offset <= logical,
            offset == logical || offset == steps.len() * CHUNK,
            reader.ran(old(reader), steps),
            forall|i: int|
                0 <= i < steps.len() ==> i * CHUNK < logical && (#[trigger] steps[i]).asked
                    == asked_chunk(logical as nat, i) && steps[i].outcome is Ok,
            steps.len() > 0 ==> runs(stream::received(steps.drop_last())).len() <= MAX_EXTENTS,
            stream::received(steps).len() == offset,
            runs(stream::received(steps)).len() <= MAX_EXTENTS,
            extents@ == runs(stream::received(steps)),
        decreases logical - offset,
    {
        let left: u64 = logical - offset;
        let count: usize = if left < CHUNK as u64 {
            left as usize
        } else {
            CHUNK
        };
        let ghost before = *reader;
        let read = reader.perform(Action::ReadExact(count));
        let ghost step = Step {
            asked: Asked::ReadExact(count as nat),
            outcome: stream::seen(read),
        };
        let ghost all = steps.push(step);
        proof {
            assert(reader.log() =~= old(reader).log() + all);
            assert(reader.ran(old(reader), all));
            assert(all.drop_last() =~= steps);
            capture::lemma_received_push(steps, step);
        }
        let chunk = match read {
            Ok(chunk) => chunk,
            Err(e) => {
                assert(scans(all, logical as nat, Err(e)));
                return Err(e);
            },
        };
        proof {
            lemma_runs_end(stream::received(steps));
            lemma_runs_extended(stream::received(steps), chunk@);
        }
        if let Err(e) = extend_map(&mut extents, offset, chunk.as_slice()) {
            assert(scans(all, logical as nat, Err(e)));
            return Err(e);
        }
        offset = offset + count as u64;
        proof {
            steps = all;
        }
    }
    extents.push((logical, 0));
    assert(scans(steps, logical as nat, Ok(extents@)));
    Ok(extents)
}

/// Where the extent `e` ends.
pub open spec fn end(e: (u64, u64)) -> int {
    e.0 + e.1
}

/// Whether `x` lies in one of the extents.
pub open spec fn covered(map: Seq<(u64, u64)>, x: int) -> bool {
    exists|i: int| 0 <= i < map.len() && (#[trigger] map[i]).0 <= x < end(map[i])
}

/// The chunk of `data` in which `x` lies.
pub open spec fn chunk_of(data: Seq<u8>, x: int) -> Seq<u8> {
    let start = x / CHUNK as int * CHUNK;
    data.subrange(
        start,
        if start + CHUNK < data.len() {
            start + CHUNK
        } else {
            data.len() as int
        },
    )
}

/// What is kept of `data`: its extents, one after the other.
pub open spec fn stored(data: Seq<u8>, map: Seq<(u64, u64)>) -> Seq<u8>
    decreases map.len(),
{
    if map.len() == 0 {
        Seq::empty()
    } else {
        stored(data, map.drop_last()) + data.subrange(map.last().0 as int, end(map.last()))
    }
}

/// `n` zeros.
pub open spec fn zeros(n: int) -> Seq<u8> {
    Seq::new(
        if n < 0 {
            0
        } else {
            n as nat
        },
        |i: int| 0u8,
    )
}

/// The image whose extents are `map` and hold `kept`, one after the other, and
/// which is zero elsewhere.
pub open spec fn restored(map: Seq<(u64, u64)>, kept: Seq<u8>) -> Seq<u8>
    decreases map.len(),
{
    if map.len() == 0 {
        Seq::empty()
    } else {
        let (offset, len) = map.last();
        let before = restored(map.drop_last(), kept.take(kept.len() - len));
        before + zeros(offset - before.len()) + kept.skip(kept.len() - len)
    }
}

/// Extents are not empty, lie in the data, start and end between chunks (or end
/// with the data), follow each other in order, and do not touch.
pub proof fn law_extents_are_separate(data: Seq<u8>)
    requires
        data.len() <= u64::MAX,
    ensures
        forall|i: int| #![trigger runs(data)[i]]
            0 <= i < runs(data).len() ==> {
                &&& runs(data)[i].1 > 0
                &&& end(runs(data)[i]) <= data.len()
                &&& runs(data)[i].0 % CHUNK as u64 == 0
                &&& end(runs(data)[i]) % CHUNK as int == 0 || end(runs(data)[i]) == data.len()
            },
        forall|i: int, j: int| #![trigger runs(data)[i], runs(data)[j]]
            0 <= i < j < runs(data).len() ==> end(runs(data)[i]) < runs(data)[j].0,
    decreases data.len(),
{
    if data.len() > 0 {
        let offset = last_chunk(data.len());
        let head = data.take(offset as int);
        let prev = runs(head);
        let all = runs(data);
        law_extents_are_separate(head);
        assert(offset % CHUNK as nat == 0);
        assert forall|i: int| #![trigger all[i]] 0 <= i < all.len() implies {
            &&& all[i].1 > 0
            &&& end(all[i]) <= data.len()
            &&& all[i].0 % CHUNK as u64 == 0
            &&& end(all[i]) % CHUNK as int == 0 || end(all[i]) == data.len()
        } by {
            if i < prev.len() {
                assert(prev[i].1 > 0 && end(prev[i]) <= offset);
            }
        }
        assert forall|i: int, j: int| #![trigger all[i], all[j]] 0 <= i < j < all.len() implies end(
            all[i],
        ) < all[j].0 by {
            assert(prev[i].1 > 0 && end(prev[i]) <= offset);
            if j < prev.len() {
                assert(end(prev[i]) < prev[j].0);
            }
        }
    }
}

/// A position lies in an extent exactly if its chunk is not all zeros.
pub proof fn law_extents_cover(data: Seq<u8>, x: int)
    requires
        data.len() <= u64::MAX,
        0 <= x < data.len(),
    ensures
        covered(runs(data), x) <==> !is_zero(chunk_of(data, x)),
    decreases data.len(),
{
    let offset = last_chunk(data.len()) as int;
    let head = data.take(offset);
    let prev = runs(head);
    let all = runs(data);
    let chunk = data.skip(offset);
    lemma_runs_end(head);
    if x < offset {
        law_extents_cover(head, x);
        assert(x / CHUNK as int * CHUNK + CHUNK <= offset);
        assert(chunk_of(data, x) =~= chunk_of(head, x));
        if covered(prev, x) {
            let i = choose|i: int|
                0 <= i < prev.len() && (#[trigger] prev[i]).0 <= x < end(prev[i]);
            assert(all[i].0 <= x < end(all[i]));
        }
        if covered(all, x) {
            let i = choose|i: int| 0 <= i < all.len() && (#[trigger] all[i]).0 <= x < end(all[i]);
            assert(i < prev.len() && prev[i].0 <= x < end(prev[i]));
        }
    } else {
        assert(chunk_of(data, x) =~= chunk);
        if is_zero(chunk) {
            if covered(all, x) {
                let i = choose|i: int|
                    0 <= i < all.len() && (#[trigger] all[i]).0 <= x < end(all[i]);
                assert(end(prev[i]) <= offset);
            }
        } else {
            assert(all.last().0 <= x < end(all.last()));
            assert(all[all.len() - 1] == all.last());
        }
    }
}

/// What is kept does not depend on data behind the extents.
proof fn lemma_stored_prefix(data: Seq<u8>, more: Seq<u8>, map: Seq<(u64, u64)>)
    requires
        forall|i: int| 0 <= i < map.len() ==> end(#[trigger] map[i]) <= data.len(),
    ensures
        stored(data + more, map) == stored(data, map),
    decreases map.len(),
{
    if map.len() > 0 {
        assert(end(map[map.len() - 1]) <= data.len());
        lemma_stored_prefix(data, more, map.drop_last());
        assert((data + more).subrange(map.last().0 as int, end(map.last())) =~= data.subrange(
            map.last().0 as int,
            end(map.last()),
        ));
    }
}

/// Up to the end of the last extent the image is restored, and behind it there
/// are only zeros.
proof fn lemma_restored_runs(data: Seq<u8>)
    requires
        data.len() <= u64::MAX,
    ensures
        restored(runs(data), stored(data, runs(data))) + zeros(
            data.len() - restored(runs(data), stored(data, runs(data))).len(),
        ) == data,
        restored(runs(data), stored(data, runs(data))).len() == if runs(data).len() == 0 {
            0
        } else {
            end(runs(data).last())
        },
    decreases data.len(),
{
    if data.len() > 0 {
        let offset = last_chunk(data.len()) as int;
        let head = data.take(offset);
        let chunk = data.skip(offset);
        let prev = runs(head);
        let all = runs(data);
        let before = restored(prev, stored(head, prev));
        lemma_restored_runs(head);
        lemma_runs_end(head);
        lemma_runs_end(data);
        assert(data =~= head + chunk);
        lemma_stored_prefix(head, chunk, prev);
        let kept = stored(data, all);
        if is_zero(chunk) {
            assert(before + zeros(data.len() - before.len()) =~= data);
        } else if prev.len() > 0 && prev.last().0 + prev.last().1 == offset {
            let (start, len) = prev.last();
            assert(all.drop_last() =~= prev.drop_last());
            lemma_stored_prefix(head, chunk, prev.drop_last());
            let kept_before = stored(head, prev);
            assert(kept =~= kept_before + chunk);
            assert(kept.take(kept.len() - all.last().1) =~= kept_before.take(
                kept_before.len() - len,
            ));
            assert(kept.skip(kept.len() - all.last().1) =~= kept_before.skip(
                kept_before.len() - len,
            ) + chunk);
            assert(before =~= head);
            assert(restored(all, kept) =~= data);
        } else {
            assert(all.drop_last() =~= prev);
            assert(kept =~= stored(head, prev) + chunk);
            assert(kept.take(kept.len() - all.last().1) =~= stored(head, prev));
            assert(kept.skip(kept.len() - all.last().1) =~= chunk);
            assert(restored(all, kept) =~= data);
        }
    }
}

/// A memory image is restored, byte for byte, from its sparse map and what is
/// kept of it.
pub proof fn law_sparse_image_is_restored(data: Seq<u8>)
    requires
        data.len() <= u64::MAX,
    ensures
        restored(sparse_map(data), stored(data, sparse_map(data))) == data,
{
    let map = sparse_map(data);
    lemma_restored_runs(data);
    lemma_runs_end(data);
    assert(map.drop_last() =~= runs(data));
    let kept = stored(data, runs(data));
    assert(stored(data, map) =~= kept);
    assert(kept.take(kept.len() as int) =~= kept);
    assert(restored(map, kept) =~= data);
}

/// A position lies in an extent exactly if there is a byte other than zero among
/// the 65536 that its block of that size holds.
pub proof fn law_nothing_but_zero_blocks_is_left_out(data: Seq<u8>, x: int)
    requires
        data.len() <= u64::MAX,
        0 <= x < data.len(),
    ensures
        covered(runs(data), x) <==> exists|y: int|
            0 <= y < data.len() && y / 65536 == x / 65536 && #[trigger] data[y] != 0,
{
    law_extents_cover(data, x);
    let chunk = chunk_of(data, x);
    let start = x / 65536 * 65536;
    if exists|y: int| 0 <= y < data.len() && y / 65536 == x / 65536 && #[trigger] data[y] != 0 {
        let y = choose|y: int|
            0 <= y < data.len() && y / 65536 == x / 65536 && #[trigger] data[y] != 0;
        assert(chunk[y - start] == data[y]);
    }
    if !is_zero(chunk) {
        let i = choose|i: int| 0 <= i < chunk.len() && chunk[i] != 0;
        assert(data[start + i] == chunk[i]);
        assert((start + i) / 65536 == x / 65536);
    }
}

/// The map of an image is its extents and an empty one at its end. A scan ends
/// in that map, of no more than 65536 extents and the empty one, or at a read
/// that failed, or as soon as what was read has more extents than that.
pub proof fn law_scan_ends(
    steps: Seq<Step>,
    logical: nat,
    res: Result<Seq<(u64, u64)>, IoError>,
)
    requires
        scans(steps, logical, res),
    ensures
        res matches Ok(map) ==> {
            &&& map.len() <= 65537
            &&& map.last().1 == 0
            &&& logical <= u64::MAX ==> map.last().0 == logical
            &&& map.drop_last() == runs(stream::received(steps))
            &&& stream::received(steps).len() == logical
        },
        res matches Err(e) ==> {
            ||| steps.last().outcome == Err::<Seq<u8>, IoError>(e)
            ||| {
                &&& runs(stream::received(steps)).len() > 65536
                &&& runs(stream::received(steps.drop_last())).len() <= 65536
                &&& e.says(IoErrorKind::Other, "prototype sparse map limit exceeded"@)
            }
        },
{
    if let Ok(map) = res {
        assert(map.drop_last() =~= runs(stream::received(steps)));
    }
}

} // verus!
