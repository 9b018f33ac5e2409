//! What an archive holds of a memory image, and that the image can be had back
//! from it.

use crate::archive;
use crate::capture;
use crate::extents;
use crate::header;
use crate::stream;
use crate::stream::{Asked, IoError, Step};
use vstd::prelude::*;

verus! {

/// The bytes of `blocks`, one after the other.
pub open spec fn joined(blocks: Seq<Seq<u8>>) -> Seq<u8>
    decreases blocks.len(),
{
    if blocks.len() == 0 {
        Seq::empty()
    } else {
        joined(blocks.drop_last()) + blocks.last()
    }
}

/// The entry of the archive: the blocks that describe the image, what is kept
/// of it, and zeros up to the end of the last block.
pub open spec fn entry(logical: u64, map: Seq<(u64, u64)>, kept: Seq<u8>) -> Seq<u8> {
    joined(archive::blocks(logical, map)) + kept + archive::padding(kept.len())
}

/// Blocks that were written have gone out.
proof fn lemma_blocks_sent(writes: Seq<Step>, blocks: Seq<Seq<u8>>)
    requires
        writes.len() == blocks.len(),
        forall|i: int|
            0 <= i < writes.len() ==> (#[trigger] writes[i]).asked == Asked::WriteAll(blocks[i])
                && writes[i].outcome is Ok,
    ensures
        stream::sent(writes) == joined(blocks),
    decreases writes.len(),
{
    if writes.len() > 0 {
        let before = writes.drop_last();
        assert forall|i: int| 0 <= i < before.len() implies (#[trigger] before[i]).asked
            == Asked::WriteAll(blocks.drop_last()[i]) && before[i].outcome is Ok by {
            assert(before[i] == writes[i]);
        }
        lemma_blocks_sent(before, blocks.drop_last());
        assert(writes[writes.len() - 1].asked == Asked::WriteAll(blocks[writes.len() - 1]));
    }
}

/// A copied extent is in the archive, and is that of the image where the source
/// is faithful to it.
proof fn lemma_extent_copied(
    reads: Seq<Step>,
    writes: Seq<Step>,
    extent: (u64, u64),
    data: Seq<u8>,
    start: int,
)
    requires
        archive::copies_extent(reads, writes, extent, Ok(())),
    ensures
        stream::sent(writes) == stream::received(reads),
        stream::received(reads).len() == extent.1,
        stream::faithful(reads, data, start) && extents::end(extent) <= data.len()
            ==> stream::received(reads) == data.subrange(extent.0 as int, extents::end(extent)),
{
    let seek = reads.take(1);
    let rest = reads.skip(1);
    assert(reads =~= seek + rest);
    assert(stream::received(seek) =~= Seq::<u8>::empty()) by {
        reveal_with_fuel(stream::received, 2);
        assert(seek.last() == reads[0]);
        assert(seek.drop_last() =~= Seq::<Step>::empty());
    }
    stream::lemma_received_add(seek, rest);
    assert(stream::received(reads) =~= stream::received(rest));
    capture::lemma_rounds_sent(rest, writes, extent.1 as nat);
    if stream::faithful(reads, data, start) && extents::end(extent) <= data.len() {
        stream::lemma_faithful_add(seek, rest, data, start);
        assert(stream::position(seek, start) == extent.0) by {
            assert(seek.last() == reads[0]);
        }
        capture::lemma_rounds_do_not_seek(rest, writes, extent.1 as nat);
        stream::lemma_faithful_received(rest, data, extent.0 as int);
        assert(stream::received(reads) =~= data.subrange(extent.0 as int, extents::end(extent)));
    }
}

/// Whether the extents lie in an image of `len` bytes.
pub open spec fn within(map: Seq<(u64, u64)>, len: nat) -> bool {
    forall|i: int| 0 <= i < map.len() ==> extents::end(#[trigger] map[i]) <= len
}

/// A copy of several extents is a copy of all but the last, and of the last.
proof fn lemma_last_extent(reads: Seq<Step>, writes: Seq<Step>, map: Seq<(u64, u64)>) -> (parts: (
    Seq<Step>,
    Seq<Step>,
    Seq<Step>,
    Seq<Step>,
))
    requires
        map.len() > 0,
        archive::copies_extents(reads, writes, map),
    ensures
        reads == parts.0 + parts.2,
        writes == parts.1 + parts.3,
        archive::copies_extents(parts.0, parts.1, map.drop_last()),
        archive::copies_extent(parts.2, parts.3, map.last(), Ok(())),
{
    let (r, w) = choose|r: int, w: int|
        {
            &&& #[trigger] archive::cut_at(reads, writes, r, w)
            &&& archive::copies_extents(reads.take(r), writes.take(w), map.drop_last())
            &&& archive::copies_extent(reads.skip(r), writes.skip(w), map.last(), Ok(()))
        };
    assert(reads =~= reads.take(r) + reads.skip(r));
    assert(writes =~= writes.take(w) + writes.skip(w));
    (reads.take(r), writes.take(w), reads.skip(r), writes.skip(w))
}

/// Whether `writes` have written what `reads` read, namely as much as the
/// extents hold, and the extents of the image where the source is faithful to
/// it.
spec fn holds_extents(
    reads: Seq<Step>,
    writes: Seq<Step>,
    map: Seq<(u64, u64)>,
    data: Seq<u8>,
    start: int,
) -> bool {
    &&& stream::sent(writes) == stream::received(reads)
    &&& stream::received(reads).len() == archive::stored_len(map)
    &&& stream::faithful(reads, data, start) && within(map, data.len()) ==> stream::received(reads)
        == extents::stored(data, map)
}

/// One more extent.
proof fn lemma_one_more_extent(
    reads: Seq<Step>,
    writes: Seq<Step>,
    last_reads: Seq<Step>,
    last_writes: Seq<Step>,
    map: Seq<(u64, u64)>,
    data: Seq<u8>,
    start: int,
)
    requires
        map.len() > 0,
        holds_extents(reads, writes, map.drop_last(), data, start),
        archive::copies_extent(last_reads, last_writes, map.last(), Ok(())),
    ensures
        holds_extents(reads + last_reads, writes + last_writes, map, data, start),
{
    let before = map.drop_last();
    stream::lemma_received_add(reads, last_reads);
    stream::lemma_sent_add(writes, last_writes);
    stream::lemma_faithful_add(reads, last_reads, data, start);
    let at = stream::position(reads, start);
    lemma_extent_copied(last_reads, last_writes, map.last(), data, at);
    if within(map, data.len()) {
        assert forall|i: int| 0 <= i < before.len() implies extents::end(#[trigger] before[i])
            <= data.len() by {
            assert(before[i] == map[i]);
        }
        assert(extents::end(map[map.len() - 1]) <= data.len());
    }
}

/// Copied extents are in the archive.
proof fn lemma_extents_copied(
    reads: Seq<Step>,
    writes: Seq<Step>,
    map: Seq<(u64, u64)>,
    data: Seq<u8>,
    start: int,
)
    requires
        archive::copies_extents(reads, writes, map),
    ensures
        holds_extents(reads, writes, map, data, start),
    decreases map.len(),
{
    if map.len() > 0 {
        let (r, w, last_r, last_w) = lemma_last_extent(reads, writes, map);
        lemma_extents_copied(r, w, map.drop_last(), data, start);
        lemma_one_more_extent(r, w, last_r, last_w, map, data, start);
    } else {
        assert(reads =~= Seq::<Step>::empty());
        assert(writes =~= Seq::<Step>::empty());
    }
}

/// An append that succeeds adds to the archive the blocks that describe the
/// image, exactly the bytes read for its extents, and the padding.
pub proof fn law_append_writes_the_entry(
    reads: Seq<Step>,
    writes: Seq<Step>,
    logical: u64,
    map: Seq<(u64, u64)>,
)
    requires
        archive::appends(reads, writes, logical, map, Ok(())),
    ensures
        stream::sent(writes) == entry(logical, map, stream::received(reads)),
        stream::received(reads).len() == archive::stored_len(map),
{
    let described = archive::blocks(logical, map);
    let n = described.len() as int;
    let head = writes.take(n);
    let body = writes.skip(n).drop_last();
    let last = writes.skip(n + body.len());
    assert(writes =~= head + body + last);
    stream::lemma_sent_add(head + body, last);
    stream::lemma_sent_add(head, body);
    assert forall|i: int| 0 <= i < head.len() implies (#[trigger] head[i]).asked
        == Asked::WriteAll(described[i]) && head[i].outcome is Ok by {}
    lemma_blocks_sent(head, described);
    lemma_extents_copied(reads, body, map, Seq::empty(), 0);
    assert(last =~= seq![writes.last()]);
    assert(stream::sent(last) =~= archive::padding(archive::stored_len(map))) by {
        reveal_with_fuel(stream::sent, 2);
        assert(last.drop_last() =~= Seq::<Step>::empty());
    }
    assert(stream::sent(writes) =~= entry(logical, map, stream::received(reads)));
}

/// A scan that succeeds on a source faithful to an image finds the sparse map
/// of that image.
pub proof fn law_scan_finds_the_map(scan: Seq<Step>, data: Seq<u8>, map: Seq<(u64, u64)>)
    requires
        extents::scans(scan, data.len(), Ok(map)),
        stream::faithful(scan, data, 0),
    ensures
        stream::received(scan) == data,
        map == extents::sparse_map(data),
{
    assert forall|i: int| 0 <= i < scan.len() implies !((#[trigger] scan[i]).asked is Seek) by {
        assert(scan[i].asked == extents::asked_chunk(data.len(), i));
    }
    stream::lemma_faithful_received(scan, data, 0);
    assert(stream::received(scan) =~= data);
}

/// More chunks have no fewer extents.
proof fn lemma_runs_grow(data: Seq<u8>, m: int)
    requires
        0 <= m <= data.len(),
        m % extents::CHUNK as int == 0 || m == data.len(),
    ensures
        extents::runs(data.take(m)).len() <= extents::runs(data).len(),
    decreases data.len(),
{
    if m == data.len() {
        assert(data.take(m) =~= data);
    } else {
        let offset = extents::last_chunk(data.len()) as int;
        let head = data.take(offset);
        assert(m <= offset);
        lemma_runs_grow(head, m);
        assert(head.take(m) =~= data.take(m));
    }
}

/// How much a scan has read after whole steps.
proof fn lemma_scanned_len(scan: Seq<Step>, logical: nat)
    requires
        forall|i: int|
            0 <= i < scan.len() ==> {
                &&& i * extents::CHUNK < logical
                &&& (#[trigger] scan[i]).asked == extents::asked_chunk(logical, i)
                &&& scan[i].outcome is Ok
                &&& stream::is_proper(scan[i])
            },
    ensures
        stream::received(scan).len() == capture::ask(logical, scan.len() * extents::CHUNK as nat),
    decreases scan.len(),
{
    if scan.len() > 0 {
        let before = scan.drop_last();
        let n = scan.len() - 1;
        assert forall|i: int| 0 <= i < before.len() implies {
            &&& i * extents::CHUNK < logical
            &&& (#[trigger] before[i]).asked == extents::asked_chunk(logical, i)
            &&& before[i].outcome is Ok
            &&& stream::is_proper(before[i])
        } by {
            assert(before[i] == scan[i]);
        }
        lemma_scanned_len(before, logical);
        assert(scan[n].asked == extents::asked_chunk(logical, n));
        assert(scan.last() == scan[n]);
    }
}

/// A scan succeeds on a source that holds the image, unless the image has too
/// many extents.
pub proof fn law_scan_succeeds(
    scan: Seq<Step>,
    data: Seq<u8>,
    res: Result<Seq<(u64, u64)>, IoError>,
)
    requires
        extents::scans(scan, data.len(), res),
        stream::all_went_well(scan),
        stream::faithful(scan, data, 0),
        forall|i: int| 0 <= i < scan.len() ==> stream::is_proper(#[trigger] scan[i]),
        extents::runs(data).len() <= extents::MAX_EXTENTS,
    ensures
        res == Ok::<Seq<(u64, u64)>, IoError>(extents::sparse_map(data)),
{
    if res is Err {
        lemma_scanned_len(scan, data.len());
        assert forall|i: int| 0 <= i < scan.len() implies !((#[trigger] scan[i]).asked is Seek) by {
            assert(scan[i].asked == extents::asked_chunk(data.len(), i));
        }
        stream::lemma_faithful_received(scan, data, 0);
        let m = stream::received(scan).len() as int;
        assert(stream::received(scan) =~= data.take(m));
        lemma_runs_grow(data, m);
        assert(scan[scan.len() - 1].outcome is Ok);
    } else {
        law_scan_finds_the_map(scan, data, res->Ok_0);
    }
}

/// The extents of an image hold no more than the image.
proof fn lemma_runs_hold_no_more(data: Seq<u8>)
    requires
        data.len() <= u64::MAX,
    ensures
        archive::stored_len(extents::runs(data)) <= data.len(),
    decreases data.len(),
{
    if data.len() > 0 {
        let offset = extents::last_chunk(data.len());
        let head = data.take(offset as int);
        let prev = extents::runs(head);
        let all = extents::runs(data);
        lemma_runs_hold_no_more(head);
        if all != prev {
            if prev.len() > 0 && prev.last().0 + prev.last().1 == offset {
                assert(all.drop_last() =~= prev.drop_last());
            } else {
                assert(all.drop_last() =~= prev);
            }
        }
    }
}

/// What is kept of an image is no more than the image: a scanned map always
/// meets what an append asks of it.
pub proof fn law_kept_is_no_more_than_the_image(data: Seq<u8>)
    requires
        data.len() <= u64::MAX,
    ensures
        archive::stored_len(extents::sparse_map(data)) <= data.len(),
{
    lemma_runs_hold_no_more(data);
    assert(extents::sparse_map(data).drop_last() =~= extents::runs(data));
}

/// The extents of the sparse map lie in the image.
proof fn lemma_map_is_within(data: Seq<u8>)
    requires
        data.len() <= u64::MAX,
    ensures
        within(extents::sparse_map(data), data.len()),
{
    let map = extents::sparse_map(data);
    extents::law_extents_are_separate(data);
    assert forall|i: int| 0 <= i < map.len() implies extents::end(#[trigger] map[i])
        <= data.len() by {
        if i < extents::runs(data).len() {
            assert(map[i] == extents::runs(data)[i]);
        }
    }
}

/// A memory image that was captured is restored, byte for byte, from the
/// archive: what was written are the blocks that describe the image, the bytes
/// kept of it, and padding; and the map and the kept bytes make up the image.
pub proof fn law_captured_image_is_restored(
    data: Seq<u8>,
    scan: Seq<Step>,
    map: Seq<(u64, u64)>,
    start: int,
    reads: Seq<Step>,
    writes: Seq<Step>,
)
    requires
        data.len() <= u64::MAX,
        extents::scans(scan, data.len(), Ok(map)),
        stream::faithful(scan, data, 0),
        archive::appends(reads, writes, data.len() as u64, map, Ok(())),
        stream::faithful(reads, data, start),
    ensures
        stream::sent(writes) == entry(data.len() as u64, map, extents::stored(data, map)),
        extents::restored(map, extents::stored(data, map)) == data,
{
    let n = archive::blocks(data.len() as u64, map).len() as int;
    let body = writes.skip(n).drop_last();
    law_scan_finds_the_map(scan, data, map);
    lemma_map_is_within(data);
    lemma_extents_copied(reads, body, map, data, start);
    law_append_writes_the_entry(reads, writes, data.len() as u64, map);
    extents::law_sparse_image_is_restored(data);
}

/// What is read for the extents of a captured image are those extents of it.
pub proof fn law_extents_received(
    data: Seq<u8>,
    scan: Seq<Step>,
    map: Seq<(u64, u64)>,
    start: int,
    reads: Seq<Step>,
    writes: Seq<Step>,
)
    requires
        data.len() <= u64::MAX,
        extents::scans(scan, data.len(), Ok(map)),
        stream::faithful(scan, data, 0),
        archive::appends(reads, writes, data.len() as u64, map, Ok(())),
        stream::faithful(reads, data, start),
    ensures
        stream::received(reads) == extents::stored(data, map),
{
    let n = archive::blocks(data.len() as u64, map).len() as int;
    law_scan_finds_the_map(scan, data, map);
    lemma_map_is_within(data);
    lemma_extents_copied(reads, writes.skip(n).drop_last(), map, data, start);
}

/// No extent that lies in the image fails to be copied where the source holds
/// the image and the archive takes what is written.
proof fn lemma_extent_is_copied(
    before: Seq<Step>,
    reads: Seq<Step>,
    writes: Seq<Step>,
    extent: (u64, u64),
    e: IoError,
    data: Seq<u8>,
    start: int,
)
    requires
        stream::delivers(before + reads, data, start),
        stream::all_went_well(writes),
        extents::end(extent) <= data.len(),
    ensures
        !archive::copies_extent(reads, writes, extent, Err(e)),
{
    if archive::copies_extent(reads, writes, extent, Err(e)) {
        let all = before + reads;
        let seek = reads.take(1);
        let rest = reads.skip(1);
        let body = rest.drop_last();
        let total = extent.1 as nat;
        let last = all.len() - 1;
        assert(all[before.len() as int] == reads[0]);
        assert(all[last].outcome is Ok);
        assert(rest.last() == all[last]);
        if writes.len() >= rest.len() {
            assert(writes[writes.len() - 1].outcome is Ok);
        }
        assert(all.take(last) =~= before + (seek + body));
        assert(all.drop_last() =~= all.take(last));
        stream::lemma_faithful_add(before, seek + body, data, start);
        let at = stream::position(before, start);
        stream::lemma_faithful_add(seek, body, data, at);
        assert(stream::position(seek, at) == extent.0) by {
            assert(seek.last() == reads[0]);
        }
        capture::lemma_rounds_do_not_seek(body, writes, total);
        stream::lemma_faithful_received(body, data, extent.0 as int);
        assert(stream::position(all.take(last), start) < data.len());
    }
}

/// An append of a scanned map succeeds on a source that holds the image, with
/// an archive that takes what is written.
pub proof fn law_append_of_a_scanned_map_succeeds(
    data: Seq<u8>,
    start: int,
    reads: Seq<Step>,
    writes: Seq<Step>,
    res: Result<(), IoError>,
)
    requires
        data.len() <= u64::MAX,
        archive::appends(reads, writes, data.len() as u64, extents::sparse_map(data), res),
        stream::delivers(reads, data, start),
        stream::all_went_well(writes),
    ensures
        res is Ok,
{
    let map = extents::sparse_map(data);
    let described = archive::blocks(data.len() as u64, map);
    let n = described.len() as int;
    if res is Err {
        let e = res->Err_0;
        lemma_map_is_within(data);
        if writes.len() > 0 {
            assert(writes[writes.len() - 1].outcome is Ok);
        }
        assert(archive::fails_at_extent(reads, writes.skip(n), map, e));
        let body = writes.skip(n);
        let (k, r, w) = choose|k: int, r: int, w: int|
            #![trigger map.take(k), archive::cut_at(reads, body, r, w)]
            {
                &&& 0 <= k < map.len()
                &&& archive::cut_at(reads, body, r, w)
                &&& archive::copies_extents(reads.take(r), body.take(w), map.take(k))
                &&& archive::copies_extent(reads.skip(r), body.skip(w), map[k], Err(e))
            };
        assert(reads =~= reads.take(r) + reads.skip(r));
        assert forall|i: int| 0 <= i < body.skip(w).len() implies (
        #[trigger] body.skip(w)[i]).outcome is Ok by {
            assert(body.skip(w)[i] == writes[n + w + i]);
        }
        assert(extents::end(map[k]) <= data.len());
        lemma_extent_is_copied(reads.take(r), reads.skip(r), body.skip(w), map[k], e, data, start);
    }
}

/// The header is one block without extents, and tells the length of the image.
pub(crate) proof fn lemma_plain_header(logical: u64, stored: nat)
    ensures
        archive::plain_header(logical, stored).len() == header::BLOCK,
        forall|i: int| 386 <= i < 482 ==> archive::plain_header(logical, stored)[i] == 0,
        archive::plain_header(logical, stored).subrange(483, 495) == header::number_field(
            logical as nat,
        ),
{
    broadcast use {
        header::lemma_put,
        header::lemma_number_field_len,
        header::lemma_octal_field_len,
    };

    archive::lemma_path_is_plain();
    assert(archive::plain_header(logical, stored).subrange(483, 495) =~= header::number_field(
        logical as nat,
    ));
}

/// The header is one block.
pub(crate) proof fn lemma_header_len(logical: u64, map: Seq<(u64, u64)>)
    ensures
        archive::unsummed_header(logical, map).len() == header::BLOCK,
        archive::header_block(logical, map).len() == header::BLOCK,
{
    broadcast use {header::lemma_put, header::lemma_octal_field_len};

    let plain = archive::plain_header(logical, archive::stored_len(map));
    lemma_plain_header(logical, archive::stored_len(map));
    archive::lemma_with_slots(plain, 386, map, archive::head_slots(map));
}

/// A block with more extents is one block.
pub(crate) proof fn lemma_ext_len(part: Seq<(u64, u64)>, more: bool)
    requires
        part.len() <= 21,
    ensures
        archive::ext_block(part, more).len() == header::BLOCK,
{
    broadcast use header::lemma_put;

    archive::lemma_with_slots(header::blank(), 0, part, part.len());
}

/// Whether every one of `blocks` is one block long.
pub open spec fn even(blocks: Seq<Seq<u8>>) -> bool {
    forall|i: int| 0 <= i < blocks.len() ==> (#[trigger] blocks[i]).len() == header::BLOCK
}

/// The blocks with more extents are blocks.
pub(crate) proof fn lemma_ext_blocks_even(rest: Seq<(u64, u64)>)
    ensures
        even(archive::ext_blocks(rest)),
    decreases rest.len(),
{
    if rest.len() > 21 {
        lemma_ext_len(rest.take(21), true);
        lemma_ext_blocks_even(rest.skip(21));
    } else if rest.len() > 0 {
        lemma_ext_len(rest, false);
    }
}

/// Blocks, one after the other, are whole blocks.
pub(crate) proof fn lemma_joined_len(blocks: Seq<Seq<u8>>)
    requires
        even(blocks),
    ensures
        joined(blocks).len() == header::BLOCK * blocks.len(),
    decreases blocks.len(),
{
    if blocks.len() > 0 {
        assert(blocks[blocks.len() - 1].len() == header::BLOCK);
        assert forall|i: int| 0 <= i < blocks.drop_last().len() implies (
        #[trigger] blocks.drop_last()[i]).len() == header::BLOCK by {
            assert(blocks.drop_last()[i] == blocks[i]);
        }
        lemma_joined_len(blocks.drop_last());
    }
}

/// An entry of the archive is made of whole blocks.
pub proof fn law_entry_is_whole_blocks(logical: u64, map: Seq<(u64, u64)>, kept: Seq<u8>)
    ensures
        entry(logical, map, kept).len() % header::BLOCK as nat == 0,
{
    let described = archive::blocks(logical, map);
    lemma_header_len(logical, map);
    lemma_ext_blocks_even(map.skip(archive::head_slots(map) as int));
    assert(even(described));
    lemma_joined_len(described);
}

/// The extent in the `i`th of the entries of a block that start at `base`.
pub open spec fn slot(block: Seq<u8>, base: int, i: int) -> (int, int) {
    let at = base + 24 * i;
    (
        header::number_value(block.subrange(at, at + 12)),
        header::number_value(block.subrange(at + 12, at + 24)),
    )
}

/// Entries hold the extents that were put there.
pub(crate) proof fn lemma_slot(block: Seq<u8>, base: int, map: Seq<(u64, u64)>, n: nat, i: int)
    requires
        0 <= base,
        base + 24 * n <= block.len(),
        0 <= i < n <= map.len(),
    ensures
        slot(archive::with_slots(block, base, map, n), base, i) == (
            map[i].0 as int,
            map[i].1 as int,
        ),
        archive::with_slots(block, base, map, n)[base + 24 * i] != 0,
        archive::with_slots(block, base, map, n)[base + 24 * i + 12] != 0,
    decreases n,
{
    broadcast use {header::lemma_put, header::lemma_number_field_len};

    let m = (n - 1) as nat;
    let before = archive::with_slots(block, base, map, m);
    let after = archive::with_slots(block, base, map, n);
    let at = base + 24 * i;
    archive::lemma_with_slots(block, base, map, m);
    archive::lemma_with_slots(block, base, map, n);
    if i < m {
        lemma_slot(block, base, map, m, i);
        assert(after.subrange(at, at + 12) =~= before.subrange(at, at + 12));
        assert(after.subrange(at + 12, at + 24) =~= before.subrange(at + 12, at + 24));
        assert(after[at] == before[at] && after[at + 12] == before[at + 12]);
    } else {
        header::law_number_is_read_back(map[i].0);
        header::law_number_is_read_back(map[i].1);
        assert(after.subrange(at, at + 12) =~= header::number_field(map[i].0 as nat));
        assert(after.subrange(at + 12, at + 24) =~= header::number_field(map[i].1 as nat));
        assert(after[at] == header::number_field(map[i].0 as nat)[0]);
        assert(after[at + 12] == header::number_field(map[i].1 as nat)[0]);
    }
}

/// Blocks that agree in the entries at `base`, where those not used are zero,
/// hold the same extents.
proof fn lemma_slots_determine(
    base: int,
    room: nat,
    a: Seq<(u64, u64)>,
    m: nat,
    b: Seq<(u64, u64)>,
    n: nat,
    left: Seq<u8>,
    right: Seq<u8>,
)
    requires
        0 <= base,
        m <= a.len(),
        n <= b.len(),
        m <= room,
        n <= room,
        left.len() == right.len(),
        base + 24 * room <= left.len(),
        forall|i: int| base <= i < base + 24 * room ==> left[i] == 0 && right[i] == 0,
        archive::with_slots(left, base, a, m).subrange(base, base + 24 * room as int)
            == archive::with_slots(right, base, b, n).subrange(base, base + 24 * room as int),
    ensures
        m == n,
        a.take(m as int) == b.take(n as int),
{
    let x = archive::with_slots(left, base, a, m);
    let y = archive::with_slots(right, base, b, n);
    archive::lemma_with_slots(left, base, a, m);
    archive::lemma_with_slots(right, base, b, n);
    assert forall|i: int| base <= i < base + 24 * room implies x[i] == y[i] by {
        assert(x.subrange(base, base + 24 * room as int)[i - base] == y.subrange(
            base,
            base + 24 * room as int,
        )[i - base]);
    }
    if m < n {
        lemma_slot(right, base, b, n, m as int);
        assert(x[base + 24 * m] == 0);
    }
    if n < m {
        lemma_slot(left, base, a, m, n as int);
        assert(y[base + 24 * n] == 0);
    }
    assert forall|i: int| 0 <= i < m implies a[i] == b[i] by {
        lemma_slot(left, base, a, m, i);
        lemma_slot(right, base, b, n, i);
        let at = base + 24 * i;
        assert(x.subrange(at, at + 12) =~= y.subrange(at, at + 12));
        assert(x.subrange(at + 12, at + 24) =~= y.subrange(at + 12, at + 24));
    }
    assert(a.take(m as int) =~= b.take(n as int));
}

/// What the header tells: the extents it has room for, whether there are more,
/// and the length of the image.
pub(crate) proof fn lemma_header_tells(logical: u64, map: Seq<(u64, u64)>)
    ensures
        ({
            let plain = archive::plain_header(logical, archive::stored_len(map));
            let block = archive::header_block(logical, map);
            &&& block.subrange(386, 482) == archive::with_slots(
                plain,
                386,
                map,
                archive::head_slots(map),
            ).subrange(386, 482)
            &&& block.subrange(483, 495) == header::number_field(logical as nat)
        }),
{
    broadcast use {header::lemma_put, header::lemma_octal_field_len};

    let plain = archive::plain_header(logical, archive::stored_len(map));
    let block = archive::header_block(logical, map);
    let filled = archive::with_slots(plain, 386, map, archive::head_slots(map));
    lemma_plain_header(logical, archive::stored_len(map));
    archive::lemma_with_slots(plain, 386, map, archive::head_slots(map));
    lemma_header_len(logical, map);
    assert(block.subrange(386, 482) =~= filled.subrange(386, 482));
    assert forall|i: int| 483 <= i < 495 implies block[i] == plain[i] by {
        assert(filled[i] == plain[i]);
    }
    assert(block.subrange(483, 495) =~= plain.subrange(483, 495));
}

/// A block with more extents determines them, and whether yet more follow.
proof fn lemma_ext_block_determines(
    a: Seq<(u64, u64)>,
    more_a: bool,
    b: Seq<(u64, u64)>,
    more_b: bool,
)
    requires
        a.len() <= 21,
        b.len() <= 21,
        archive::ext_block(a, more_a) == archive::ext_block(b, more_b),
    ensures
        a == b,
        more_a == more_b,
{
    broadcast use header::lemma_put;

    let x = archive::with_slots(header::blank(), 0, a, a.len());
    let y = archive::with_slots(header::blank(), 0, b, b.len());
    archive::lemma_with_slots(header::blank(), 0, a, a.len());
    archive::lemma_with_slots(header::blank(), 0, b, b.len());
    let block = archive::ext_block(a, more_a);
    assert(block.subrange(0, 504) =~= x.subrange(0, 504));
    assert(block.subrange(0, 504) =~= y.subrange(0, 504));
    assert(block[504] == archive::flag(more_a)[0]);
    assert(block[504] == archive::flag(more_b)[0]);
    lemma_slots_determine(0, 21, a, a.len(), b, b.len(), header::blank(), header::blank());
    assert(a.take(a.len() as int) =~= a);
    assert(b.take(b.len() as int) =~= b);
}

/// The blocks with more extents determine them.
proof fn lemma_ext_blocks_determine(a: Seq<(u64, u64)>, b: Seq<(u64, u64)>)
    requires
        archive::ext_blocks(a) == archive::ext_blocks(b),
    ensures
        a == b,
    decreases a.len(),
{
    if a.len() == 0 {
        assert(archive::ext_blocks(b).len() == 0);
    } else if b.len() == 0 {
        assert(archive::ext_blocks(a).len() == 0);
    } else {
        let first_a = if a.len() <= 21 {
            a
        } else {
            a.take(21)
        };
        let first_b = if b.len() <= 21 {
            b
        } else {
            b.take(21)
        };
        assert(archive::ext_blocks(a)[0] == archive::ext_block(first_a, a.len() > 21));
        assert(archive::ext_blocks(b)[0] == archive::ext_block(first_b, b.len() > 21));
        lemma_ext_block_determines(first_a, a.len() > 21, first_b, b.len() > 21);
        if a.len() > 21 {
            assert(archive::ext_blocks(a).skip(1) =~= archive::ext_blocks(a.skip(21)));
            assert(archive::ext_blocks(b).skip(1) =~= archive::ext_blocks(b.skip(21)));
            lemma_ext_blocks_determine(a.skip(21), b.skip(21));
            assert(a =~= a.take(21) + a.skip(21));
            assert(b =~= b.take(21) + b.skip(21));
        }
    }
}

/// The blocks that describe an image determine its length and all its extents.
pub proof fn law_description_determines_map(
    logical_a: u64,
    a: Seq<(u64, u64)>,
    logical_b: u64,
    b: Seq<(u64, u64)>,
)
    requires
        archive::blocks(logical_a, a) == archive::blocks(logical_b, b),
    ensures
        logical_a == logical_b,
        a == b,
{
    let x = archive::blocks(logical_a, a);
    let y = archive::blocks(logical_b, b);
    let m = archive::head_slots(a);
    let n = archive::head_slots(b);
    let left = archive::plain_header(logical_a, archive::stored_len(a));
    let right = archive::plain_header(logical_b, archive::stored_len(b));
    assert(x[0] == archive::header_block(logical_a, a));
    assert(y[0] == archive::header_block(logical_b, b));
    lemma_header_tells(logical_a, a);
    lemma_header_tells(logical_b, b);
    header::law_number_is_read_back(logical_a);
    header::law_number_is_read_back(logical_b);
    lemma_plain_header(logical_a, archive::stored_len(a));
    lemma_plain_header(logical_b, archive::stored_len(b));
    lemma_slots_determine(386, 4, a, m, b, n, left, right);
    assert(x.skip(1) =~= archive::ext_blocks(a.skip(m as int)));
    assert(y.skip(1) =~= archive::ext_blocks(b.skip(n as int)));
    lemma_ext_blocks_determine(a.skip(m as int), b.skip(n as int));
    assert(a =~= a.take(m as int) + a.skip(m as int));
    assert(b =~= b.take(n as int) + b.skip(n as int));
}

} // verus!
