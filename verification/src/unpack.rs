//! Reading back an entry of the archive, as a reader of GNU sparse files does:
//! from its bytes alone.

use crate::archive;
use crate::extents;
use crate::header;
use crate::restore;
use crate::stream;
use crate::stream::Step;
use vstd::prelude::*;

verus! {

/// The number in the field of twelve bytes at `at`.
pub open spec fn number_at(bytes: Seq<u8>, at: int) -> int {
    header::number_value(bytes.subrange(at, at + 12))
}

/// The extent in the sparse map entry at `at`, unless the entry is unused.
pub open spec fn entry_at(bytes: Seq<u8>, at: int) -> Seq<(u64, u64)> {
    if bytes[at] == 0 || bytes[at + 12] == 0 {
        Seq::empty()
    } else {
        seq![(number_at(bytes, at) as u64, number_at(bytes, at + 12) as u64)]
    }
}

/// The extents in the `n` sparse map entries that start at `at`.
pub open spec fn entries(bytes: Seq<u8>, at: int, n: nat) -> Seq<(u64, u64)>
    decreases n,
{
    if n == 0 {
        Seq::empty()
    } else {
        entries(bytes, at, (n - 1) as nat) + entry_at(bytes, at + 24 * (n - 1))
    }
}

/// The extents in the block at `at`, and, as long as each block says that
/// another one follows, in the blocks behind it; and where these blocks end.
pub open spec fn continued(bytes: Seq<u8>, at: int) -> (Seq<(u64, u64)>, int)
    decreases bytes.len() - at,
{
    if at < 0 || bytes.len() < at + 512 {
        (Seq::empty(), at)
    } else if bytes[at + 504] == 1 {
        let (rest, end) = continued(bytes, at + 512);
        (entries(bytes, at, 21) + rest, end)
    } else {
        (entries(bytes, at, 21), at + 512)
    }
}

/// The sparse map that an entry tells, and where what is kept starts. The block
/// behind the header belongs to the map only where the header says so.
pub open spec fn map_in(bytes: Seq<u8>) -> (Seq<(u64, u64)>, int) {
    if bytes[482] == 1 {
        let (rest, end) = continued(bytes, 512);
        (entries(bytes, 386, 4) + rest, end)
    } else {
        (entries(bytes, 386, 4), 512)
    }
}

/// How many bytes are kept of the file.
pub open spec fn kept_len(bytes: Seq<u8>) -> int {
    number_at(bytes, 124)
}

/// What is kept of the file.
pub open spec fn kept_in(bytes: Seq<u8>) -> Seq<u8> {
    bytes.subrange(map_in(bytes).1, map_in(bytes).1 + kept_len(bytes))
}

/// The length of the file.
pub open spec fn file_len(bytes: Seq<u8>) -> int {
    number_at(bytes, 483)
}

/// The file: what is kept, at the places that the map tells, and zeros
/// elsewhere.
pub open spec fn unpacked(bytes: Seq<u8>) -> Seq<u8> {
    extents::restored(map_in(bytes).0, kept_in(bytes))
}

/// Entries depend only on their own bytes.
proof fn lemma_entries_local(a: Seq<u8>, x: int, b: Seq<u8>, y: int, n: nat)
    requires
        0 <= x,
        0 <= y,
        x + 24 * n <= a.len(),
        y + 24 * n <= b.len(),
        forall|i: int| 0 <= i < 24 * n ==> #[trigger] a[x + i] == b[y + i],
    ensures
        entries(a, x, n) == entries(b, y, n),
    decreases n,
{
    if n > 0 {
        lemma_entries_local(a, x, b, y, (n - 1) as nat);
        let k = 24 * (n - 1);
        assert(a[x + k] == b[y + k]);
        assert(a[x + (k + 12)] == b[y + (k + 12)]);
        let p = a.subrange(x + k, x + k + 12);
        let q = b.subrange(y + k, y + k + 12);
        assert forall|i: int| 0 <= i < 12 implies #[trigger] p[i] == q[i] by {
            assert(a[x + (k + i)] == b[y + (k + i)]);
        }
        assert(p =~= q);
        let r = a.subrange(x + k + 12, x + k + 24);
        let t = b.subrange(y + k + 12, y + k + 24);
        assert forall|i: int| 0 <= i < 12 implies #[trigger] r[i] == t[i] by {
            assert(a[x + (k + 12 + i)] == b[y + (k + 12 + i)]);
        }
        assert(r =~= t);
    }
}

/// The entries of a block are the extents that were put there.
proof fn lemma_entries(
    block: Seq<u8>,
    base: int,
    map: Seq<(u64, u64)>,
    n: nat,
    room: nat,
    m: nat,
)
    requires
        0 <= base,
        n <= map.len(),
        n <= room,
        m <= room,
        base + 24 * room <= block.len(),
        forall|i: int| base <= i < base + 24 * room ==> block[i] == 0,
    ensures
        entries(archive::with_slots(block, base, map, n), base, m) == map.take(
            if m < n {
                m as int
            } else {
                n as int
            },
        ),
    decreases m,
{
    let filled = archive::with_slots(block, base, map, n);
    archive::lemma_with_slots(block, base, map, n);
    if m > 0 {
        let k = m - 1;
        lemma_entries(block, base, map, n, room, k as nat);
        if k < n {
            restore::lemma_slot(block, base, map, n, k);
            assert(entry_at(filled, base + 24 * k) =~= seq![map[k]]);
            assert(map.take(m as int) =~= map.take(k) + seq![map[k]]);
        } else {
            assert(filled[base + 24 * k] == block[base + 24 * k]);
            assert(entry_at(filled, base + 24 * k) =~= Seq::<(u64, u64)>::empty());
            assert(map.take(n as int) + Seq::<(u64, u64)>::empty() =~= map.take(n as int));
        }
    } else {
        assert(map.take(0) =~= Seq::<(u64, u64)>::empty());
    }
}

/// What a block with more extents tells.
proof fn lemma_ext_block(part: Seq<(u64, u64)>, more: bool)
    requires
        part.len() <= 21,
    ensures
        archive::ext_block(part, more).len() == 512,
        entries(archive::ext_block(part, more), 0, 21) == part,
        archive::ext_block(part, more)[504] == 1 <==> more,
{
    broadcast use header::lemma_put;

    let filled = archive::with_slots(header::blank(), 0, part, part.len());
    archive::lemma_with_slots(header::blank(), 0, part, part.len());
    restore::lemma_ext_len(part, more);
    lemma_entries(header::blank(), 0, part, part.len(), 21, 21);
    lemma_entries_local(archive::ext_block(part, more), 0, filled, 0, 21);
    assert(part.take(part.len() as int) =~= part);
}

/// The blocks with more extents are read to their end and no further.
proof fn lemma_continued(bytes: Seq<u8>, at: int, rest: Seq<(u64, u64)>)
    requires
        rest.len() > 0,
        0 <= at,
        at + 512 * archive::ext_blocks(rest).len() <= bytes.len(),
        forall|i: int|
            0 <= i < archive::ext_blocks(rest).len() ==> bytes.subrange(
                at + 512 * i,
                at + 512 * i + 512,
            ) == #[trigger] archive::ext_blocks(rest)[i],
    ensures
        continued(bytes, at) == (rest, at + 512 * archive::ext_blocks(rest).len()),
    decreases rest.len(),
{
    let blocks = archive::ext_blocks(rest);
    let part = if rest.len() <= 21 {
        rest
    } else {
        rest.take(21)
    };
    let more = rest.len() > 21;
    assert(blocks[0] == archive::ext_block(part, more));
    let here = bytes.subrange(at, at + 512);
    assert(bytes.subrange(at + 512 * 0, at + 512 * 0 + 512) == blocks[0]);
    lemma_ext_block(part, more);
    assert forall|i: int| 0 <= i < 24 * 21 implies #[trigger] bytes[at + i] == here[0 + i] by {}
    lemma_entries_local(bytes, at, here, 0, 21);
    assert(bytes[at + 504] == here[504]);
    if more {
        let behind = archive::ext_blocks(rest.skip(21));
        assert(blocks == seq![blocks[0]] + behind);
        assert forall|i: int| 0 <= i < behind.len() implies bytes.subrange(
            at + 512 + 512 * i,
            at + 512 + 512 * i + 512,
        ) == #[trigger] behind[i] by {
            assert(blocks[i + 1] == behind[i]);
        }
        lemma_continued(bytes, at + 512, rest.skip(21));
        assert(part + rest.skip(21) =~= rest);
    }
}

/// Where each of several blocks stands.
proof fn lemma_joined_at(blocks: Seq<Seq<u8>>, tail: Seq<u8>, i: int)
    requires
        restore::even(blocks),
        0 <= i < blocks.len(),
    ensures
        restore::joined(blocks).len() == 512 * blocks.len(),
        (restore::joined(blocks) + tail).subrange(512 * i, 512 * i + 512) == blocks[i],
    decreases blocks.len(),
{
    restore::lemma_joined_len(blocks);
    let n = blocks.len() - 1;
    let before = blocks.drop_last();
    assert(restore::even(before)) by {
        assert forall|k: int| 0 <= k < before.len() implies (#[trigger] before[k]).len()
            == header::BLOCK by {
            assert(before[k] == blocks[k]);
        }
    }
    restore::lemma_joined_len(before);
    let all = restore::joined(blocks) + tail;
    assert(blocks[n].len() == 512);
    if i == n {
        assert(all.subrange(512 * i, 512 * i + 512) =~= blocks[i]);
    } else {
        lemma_joined_at(before, blocks.last() + tail, i);
        assert(all =~= restore::joined(before) + (blocks.last() + tail));
    }
}

/// The header tells what it should.
proof fn lemma_head(bytes: Seq<u8>, logical: u64, map: Seq<(u64, u64)>)
    requires
        archive::stored_len(map) <= u64::MAX,
        bytes.len() >= 512,
        bytes.subrange(0, 512) == archive::header_block(logical, map),
    ensures
        entries(bytes, 386, 4) == map.take(archive::head_slots(map) as int),
        bytes[482] == 1 <==> map.len() > 4,
        kept_len(bytes) == archive::stored_len(map),
        file_len(bytes) == logical,
{
    broadcast use {
        header::lemma_put,
        header::lemma_octal_field_len,
        header::lemma_number_field_len,
    };

    let stored = archive::stored_len(map);
    let plain = archive::plain_header(logical, stored);
    let block = archive::header_block(logical, map);
    let n = archive::head_slots(map);
    let filled = archive::with_slots(plain, 386, map, n);
    assert forall|i: int| 0 <= i < 512 implies bytes[i] == #[trigger] block[i] by {
        assert(bytes.subrange(0, 512)[i] == bytes[i]);
    }
    restore::lemma_plain_header(logical, stored);
    restore::lemma_header_len(logical, map);
    restore::lemma_header_tells(logical, map);
    archive::lemma_with_slots(plain, 386, map, n);
    lemma_entries(plain, 386, map, n, 4, 4);
    assert forall|i: int| 0 <= i < 24 * 4 implies #[trigger] bytes[386 + i] == filled[386
        + i] by {
        assert(bytes[386 + i] == block[386 + i]);
        assert(block.subrange(386, 482)[i] == filled.subrange(386, 482)[i]);
    }
    lemma_entries_local(bytes, 386, filled, 386, 4);
    assert(bytes[482] == block[482]);
    assert(block[482] == archive::flag(map.len() > 4)[0]);
    header::law_number_is_read_back(logical);
    assert(bytes.subrange(483, 495) =~= block.subrange(483, 495));
    header::law_number_is_read_back(stored as u64);
    lemma_size_field(logical, map);
    assert(bytes.subrange(124, 136) =~= block.subrange(124, 136));
}

/// The size field of the header.
proof fn lemma_size_field(logical: u64, map: Seq<(u64, u64)>)
    ensures
        archive::header_block(logical, map).subrange(124, 136) == header::number_field(
            archive::stored_len(map),
        ),
{
    broadcast use {
        header::lemma_put,
        header::lemma_octal_field_len,
        header::lemma_number_field_len,
    };

    archive::lemma_path_is_plain();
    let stored = archive::stored_len(map);
    let plain = archive::plain_header(logical, stored);
    restore::lemma_plain_header(logical, stored);
    archive::lemma_with_slots(plain, 386, map, archive::head_slots(map));
    restore::lemma_header_len(logical, map);
    assert(archive::header_block(logical, map).subrange(124, 136) =~= plain.subrange(124, 136));
    assert(plain.subrange(124, 136) =~= header::number_field(stored));
}

/// A reader of what an append wrote finds the whole sparse map, every byte that
/// was kept, and the length of the image: it starts at the header, takes a block
/// for more of the map exactly where the one before says so, and takes what
/// comes then for the kept bytes. Behind them there is nothing but the zeros
/// that fill the last block.
pub proof fn law_reader_finds_what_was_appended(
    reads: Seq<Step>,
    writes: Seq<Step>,
    logical: u64,
    map: Seq<(u64, u64)>,
)
    requires
        archive::stored_len(map) <= u64::MAX,
        archive::appends(reads, writes, logical, map, Ok(())),
    ensures
        ({
            let bytes = stream::sent(writes);
            let end = map_in(bytes).1 + kept_len(bytes);
            &&& map_in(bytes).0 == map
            &&& kept_in(bytes) == stream::received(reads)
            &&& file_len(bytes) == logical
            &&& bytes[482] == 1 <==> map.len() > 4
            &&& bytes[482] == 0 <==> map.len() <= 4
            &&& bytes.len() % 512 == 0
            &&& end <= bytes.len() < end + 512
            &&& forall|i: int| end <= i < bytes.len() ==> bytes[i] == 0
        }),
{
    let kept = stream::received(reads);
    let bytes = stream::sent(writes);
    let blocks = archive::blocks(logical, map);
    let tail = kept + archive::padding(kept.len());
    let n = archive::head_slots(map) as int;
    let rest = map.skip(n);
    restore::law_append_writes_the_entry(reads, writes, logical, map);
    restore::law_entry_is_whole_blocks(logical, map, kept);
    restore::lemma_header_len(logical, map);
    restore::lemma_ext_blocks_even(rest);
    assert(restore::even(blocks));
    assert(bytes =~= restore::joined(blocks) + tail);
    lemma_joined_at(blocks, tail, 0);
    assert(bytes.subrange(0, 512) == blocks[0]);
    lemma_head(bytes, logical, map);
    lemma_flag_is_a_bit(bytes, logical, map);
    if map.len() > 4 {
        assert forall|i: int| 0 <= i < archive::ext_blocks(rest).len() implies bytes.subrange(
            512 + 512 * i,
            512 + 512 * i + 512,
        ) == #[trigger] archive::ext_blocks(rest)[i] by {
            lemma_joined_at(blocks, tail, i + 1);
            assert(blocks[i + 1] == archive::ext_blocks(rest)[i]);
        }
        lemma_continued(bytes, 512, rest);
        assert(map.take(n) + rest =~= map);
    } else {
        assert(archive::ext_blocks(rest).len() == 0);
        assert(map.take(n) =~= map);
    }
    assert(map_in(bytes).1 == 512 * blocks.len());
    assert(kept_in(bytes) =~= kept);
}

/// The flag of the header is a zero or a one.
proof fn lemma_flag_is_a_bit(bytes: Seq<u8>, logical: u64, map: Seq<(u64, u64)>)
    requires
        bytes.len() >= 512,
        bytes.subrange(0, 512) == archive::header_block(logical, map),
    ensures
        bytes[482] == 0 || bytes[482] == 1,
{
    broadcast use {header::lemma_put, header::lemma_octal_field_len};

    let plain = archive::plain_header(logical, archive::stored_len(map));
    restore::lemma_plain_header(logical, archive::stored_len(map));
    restore::lemma_header_len(logical, map);
    archive::lemma_with_slots(plain, 386, map, archive::head_slots(map));
    assert(bytes.subrange(0, 512)[482] == bytes[482]);
}

/// An image that was captured unpacks, from the bytes of the archive alone, to
/// the same image.
pub proof fn law_captured_image_unpacks_to_itself(
    data: Seq<u8>,
    scan: Seq<Step>,
    map: Seq<(u64, u64)>,
    start: int,
    reads: Seq<Step>,
    writes: Seq<Step>,
)
    requires
        data.len() <= u64::MAX,
        extents::scans(scan, data.len(), Ok(map)),
        stream::faithful(scan, data, 0),
        archive::appends(reads, writes, data.len() as u64, map, Ok(())),
        stream::faithful(reads, data, start),
    ensures
        unpacked(stream::sent(writes)) == data,
        file_len(stream::sent(writes)) == data.len(),
{
    restore::law_scan_finds_the_map(scan, data, map);
    restore::law_kept_is_no_more_than_the_image(data);
    law_reader_finds_what_was_appended(reads, writes, data.len() as u64, map);
    restore::law_captured_image_is_restored(data, scan, map, start, reads, writes);
    restore::law_extents_received(data, scan, map, start, reads, writes);
}

/// The sum of the bytes of a block is small.
proof fn lemma_total_is_small(s: Seq<u8>)
    ensures
        header::total(s) <= 255 * s.len(),
    decreases s.len(),
{
    if s.len() > 0 {
        lemma_total_is_small(s.drop_last());
    }
}

/// The digits of the mode and of the modification time.
proof fn lemma_digits_of_mode_and_time()
    ensures
        header::octal_field(0o600, 8) == seq![48u8, 48, 48, 48, 54, 48, 48, 0],
        header::octal_field(0, 12) == seq![48u8, 48, 48, 48, 48, 48, 48, 48, 48, 48, 48, 0],
{
    reveal_with_fuel(header::octal_digits, 12);
    assert(header::octal_field(0o600, 8) =~= seq![48u8, 48, 48, 48, 54, 48, 48, 0]);
    assert(header::octal_field(0, 12) =~= seq![48u8, 48, 48, 48, 48, 48, 48, 48, 48, 48, 48, 0]);
}

/// The fields of the header that are the same for every image.
proof fn lemma_fixed_fields(logical: u64, map: Seq<(u64, u64)>)
    ensures
        ({
            let b = archive::header_block(logical, map);
            &&& b.len() == 512
            &&& b.subrange(0, 21) == Seq::new(21, |i: int| "checkpoint/memory.bin"@[i] as u8)
            &&& forall|i: int| 21 <= i < 100 ==> b[i] == 0
            &&& b.subrange(100, 108) == seq![48u8, 48, 48, 48, 54, 48, 48, 0]
            &&& forall|i: int| 108 <= i < 124 ==> b[i] == 0
            &&& b.subrange(136, 148) == seq![48u8, 48, 48, 48, 48, 48, 48, 48, 48, 48, 48, 0]
            &&& b[156] == 0x53
            &&& forall|i: int| 157 <= i < 257 ==> b[i] == 0
            &&& b.subrange(257, 265) == seq![0x75u8, 0x73, 0x74, 0x61, 0x72, 0x20, 0x20, 0]
            &&& forall|i: int| 265 <= i < 386 ==> b[i] == 0
            &&& forall|i: int| 495 <= i < 512 ==> b[i] == 0
        }),
{
    broadcast use {
        header::lemma_put,
        header::lemma_octal_field_len,
        header::lemma_number_field_len,
    };

    archive::lemma_path_is_plain();
    lemma_digits_of_mode_and_time();
    let stored = archive::stored_len(map);
    let plain = archive::plain_header(logical, stored);
    let b = archive::header_block(logical, map);
    restore::lemma_plain_header(logical, stored);
    restore::lemma_header_len(logical, map);
    archive::lemma_with_slots(plain, 386, map, archive::head_slots(map));
    assert forall|i: int|
        0 <= i < 512 && !(148 <= i < 156) && !(386 <= i < 483) implies #[trigger] b[i]
        == plain[i] by {}
    assert(b.subrange(0, 21) =~= Seq::new(21, |i: int| "checkpoint/memory.bin"@[i] as u8));
    assert(b.subrange(100, 108) =~= header::octal_field(0o600, 8));
    assert(b.subrange(136, 148) =~= header::octal_field(0, 12));
    assert(b.subrange(257, 265) =~= header::gnu_magic());
}

/// The checksum in the header is that of the header as it stands.
proof fn lemma_checksum_field(logical: u64, map: Seq<(u64, u64)>)
    ensures
        ({
            let b = archive::header_block(logical, map);
            &&& header::octal_value(b.subrange(148, 155)) == header::total(b.take(148)) + 8 * 0x20
                + header::total(b.skip(156))
            &&& b[155] == 0
        }),
{
    broadcast use {header::lemma_put, header::lemma_octal_field_len};

    let before = archive::unsummed_header(logical, map);
    let b = archive::header_block(logical, map);
    let sum = header::checksum(before);
    restore::lemma_header_len(logical, map);
    lemma_total_is_small(before.take(148));
    lemma_total_is_small(before.skip(156));
    assert(vstd::arithmetic::power::pow(8, 7) == 2097152) by {
        reveal_with_fuel(vstd::arithmetic::power::pow, 8);
    }
    header::lemma_octal_value(sum, 7);
    header::lemma_octal_digits_len(sum, 7);
    assert(b.subrange(148, 155) =~= header::octal_digits(sum, 7));
    assert(b.take(148) =~= before.take(148));
    assert(b.skip(156) =~= before.skip(156));
}

/// What an append wrote begins with a header that any reader of such archives
/// knows: the path `checkpoint/memory.bin`, mode 600 in octal, no owner, no
/// time, type `S`, the mark of a GNU header, and a checksum that is the sum of
/// its bytes with spaces in place of those of the checksum.
pub proof fn law_header_of_the_entry(
    reads: Seq<Step>,
    writes: Seq<Step>,
    logical: u64,
    map: Seq<(u64, u64)>,
)
    requires
        archive::stored_len(map) <= u64::MAX,
        archive::appends(reads, writes, logical, map, Ok(())),
    ensures
        ({
            let b = stream::sent(writes).take(512);
            &&& stream::sent(writes).len() >= 512
            &&& b.subrange(0, 21) == Seq::new(21, |i: int| "checkpoint/memory.bin"@[i] as u8)
            &&& "checkpoint/memory.bin"@.len() == 21
            &&& forall|i: int| 21 <= i < 100 ==> b[i] == 0
            &&& b.subrange(100, 108) == seq![48u8, 48, 48, 48, 54, 48, 48, 0]
            &&& forall|i: int| 108 <= i < 124 ==> b[i] == 0
            &&& b.subrange(136, 148) == seq![48u8, 48, 48, 48, 48, 48, 48, 48, 48, 48, 48, 0]
            &&& b[156] == 0x53
            &&& forall|i: int| 157 <= i < 257 ==> b[i] == 0
            &&& b.subrange(257, 265) == seq![0x75u8, 0x73, 0x74, 0x61, 0x72, 0x20, 0x20, 0]
            &&& forall|i: int| 265 <= i < 386 ==> b[i] == 0
            &&& forall|i: int| 495 <= i < 512 ==> b[i] == 0
            &&& header::octal_value(b.subrange(148, 155)) == header::total(b.take(148)) + 8 * 0x20
                + header::total(b.skip(156))
            &&& b[155] == 0
        }),
{
    let kept = stream::received(reads);
    let bytes = stream::sent(writes);
    let blocks = archive::blocks(logical, map);
    let tail = kept + archive::padding(kept.len());
    restore::law_append_writes_the_entry(reads, writes, logical, map);
    restore::lemma_header_len(logical, map);
    restore::lemma_ext_blocks_even(map.skip(archive::head_slots(map) as int));
    assert(restore::even(blocks));
    restore::lemma_joined_len(blocks);
    assert(bytes =~= restore::joined(blocks) + tail);
    lemma_joined_at(blocks, tail, 0);
    assert(bytes.take(512) =~= bytes.subrange(0, 512));
    archive::lemma_path_is_plain();
    lemma_fixed_fields(logical, map);
    lemma_checksum_field(logical, map);
}

/// There are as many blocks with more of the map as it takes to hold 21 extents
/// in each.
proof fn lemma_ext_blocks_count(rest: Seq<(u64, u64)>)
    ensures
        archive::ext_blocks(rest).len() == (rest.len() + 20) / 21,
    decreases rest.len(),
{
    if rest.len() > 21 {
        lemma_ext_blocks_count(rest.skip(21));
    }
}

/// What an append writes is no longer than it has to be: the header, which has
/// room for four extents, a block for every 21 more, and the kept bytes up to
/// the end of their last block.
pub proof fn law_entry_has_no_more_blocks_than_needed(
    reads: Seq<Step>,
    writes: Seq<Step>,
    logical: u64,
    map: Seq<(u64, u64)>,
)
    requires
        archive::stored_len(map) <= u64::MAX,
        archive::appends(reads, writes, logical, map, Ok(())),
    ensures
        ({
            let more: int = if map.len() <= 4 {
                0
            } else {
                (map.len() - 4 + 20) / 21
            };
            let kept = stream::received(reads).len();
            stream::sent(writes).len() == 512 * (1 + more + (kept + 511) / 512)
        }),
{
    let kept = stream::received(reads);
    let blocks = archive::blocks(logical, map);
    let rest = map.skip(archive::head_slots(map) as int);
    restore::law_append_writes_the_entry(reads, writes, logical, map);
    restore::lemma_header_len(logical, map);
    restore::lemma_ext_blocks_even(rest);
    assert(restore::even(blocks));
    restore::lemma_joined_len(blocks);
    lemma_ext_blocks_count(rest);
}

} // verus!
