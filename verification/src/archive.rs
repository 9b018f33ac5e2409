//! A memory image as a sparse file in a tar archive.

use crate::capture;
use crate::capture::copy_remaining;
use crate::extents;
use crate::header;
use crate::header::{
    new_ext, new_gnu, set_cksum, set_entry_type, set_ext_extended, set_ext_slot, set_is_extended,
    set_mode, set_path, set_real_size, set_size, set_slot,
};
use crate::stream;
use crate::stream::{Action, Asked, IoError, IoErrorKind, Step, Stream};
use vstd::prelude::*;
use vstd::slice::slice_subrange;

verus! {

/// The sum of the lengths of the extents.
pub open spec fn stored_len(map: Seq<(u64, u64)>) -> nat
    decreases map.len(),
{
    if map.len() == 0 {
        0
    } else {
        stored_len(map.drop_last()) + map.last().1 as nat
    }
}

/// `block` with the first `n` extents of `map` in the entries that start at
/// `base`.
pub open spec fn with_slots(block: Seq<u8>, base: int, map: Seq<(u64, u64)>, n: nat) -> Seq<u8>
    decreases n,
{
    if n == 0 {
        block
    } else {
        let at = base + 24 * (n - 1);
        header::put(
            header::put(
                with_slots(block, base, map, (n - 1) as nat),
                at,
                header::number_field(map[n - 1].0 as nat),
            ),
            at + 12,
            header::number_field(map[n - 1].1 as nat),
        )
    }
}

/// One byte that says yes or no.
pub open spec fn flag(b: bool) -> Seq<u8> {
    seq![if b { 1u8 } else { 0u8 }]
}

/// How many extents the header itself has room for.
pub open spec fn head_slots(map: Seq<(u64, u64)>) -> nat {
    if map.len() < 4 {
        map.len()
    } else {
        4
    }
}

/// The header before its extents and its checksum are entered.
pub open spec fn plain_header(logical: u64, stored: nat) -> Seq<u8> {
    let gnu = header::put(
        header::put(header::blank(), 257, header::gnu_magic()),
        136,
        header::octal_field(0, 12),
    );
    let named = header::put(gnu, 0, header::path_field("checkpoint/memory.bin"@));
    let moded = header::put(named, 100, header::octal_field(0o600, 8));
    let typed = header::put(moded, 156, seq![0x53u8]);
    let sized = header::put(typed, 124, header::number_field(stored));
    header::put(sized, 483, header::number_field(logical as nat))
}

/// The header before its checksum is entered.
pub open spec fn unsummed_header(logical: u64, map: Seq<(u64, u64)>) -> Seq<u8> {
    let plain = plain_header(logical, stored_len(map));
    header::put(with_slots(plain, 386, map, head_slots(map)), 482, flag(map.len() > 4))
}

/// The header of the image: a GNU sparse file `checkpoint/memory.bin` that only
/// its owner may read and write, of `logical` bytes, of which the extents are
/// stored.
pub open spec fn header_block(logical: u64, map: Seq<(u64, u64)>) -> Seq<u8> {
    let block = unsummed_header(logical, map);
    header::put(block, 148, header::octal_field(header::checksum(block), 8))
}

/// The block with the extents `part` of which more follow or not.
pub open spec fn ext_block(part: Seq<(u64, u64)>, more: bool) -> Seq<u8> {
    header::put(with_slots(header::blank(), 0, part, part.len()), 504, flag(more))
}

/// The blocks with the extents of `rest`, 21 in each.
pub open spec fn ext_blocks(rest: Seq<(u64, u64)>) -> Seq<Seq<u8>>
    decreases rest.len(),
{
    if rest.len() == 0 {
        Seq::empty()
    } else if rest.len() <= 21 {
        seq![ext_block(rest, false)]
    } else {
        seq![ext_block(rest.take(21), true)] + ext_blocks(rest.skip(21))
    }
}

/// All the blocks that describe the image.
pub open spec fn blocks(logical: u64, map: Seq<(u64, u64)>) -> Seq<Seq<u8>> {
    seq![header_block(logical, map)] + ext_blocks(map.skip(head_slots(map) as int))
}

/// The zeros that fill the last block of the stored data.
pub open spec fn padding(len: nat) -> Seq<u8> {
    extents::zeros((512 - len % 512) % 512)
}

/// Whether `writes` write `blocks` in turn and end in `res`.
pub open spec fn writes_blocks(
    writes: Seq<Step>,
    blocks: Seq<Seq<u8>>,
    res: Result<(), IoError>,
) -> bool {
    &&& writes.len() <= blocks.len()
    &&& forall|i: int|
        0 <= i < writes.len() ==> (#[trigger] writes[i]).asked == Asked::WriteAll(blocks[i])
    &&& forall|i: int| 0 <= i < writes.len() - 1 ==> (#[trigger] writes[i]).outcome is Ok
    &&& match res {
        Ok(_) => writes.len() == blocks.len() && (writes.len() > 0 ==> writes.last().outcome is Ok),
        Err(e) => writes.len() > 0 && writes.last().outcome == Err::<Seq<u8>, IoError>(e),
    }
}

/// Whether `reads` and `writes` copy one extent and end in `res`: the source
/// seeks the extent, and all of it is copied.
pub open spec fn copies_extent(
    reads: Seq<Step>,
    writes: Seq<Step>,
    extent: (u64, u64),
    res: Result<(), IoError>,
) -> bool {
    &&& reads.len() > 0
    &&& reads[0].asked == Asked::Seek(extent.0 as nat)
    &&& match reads[0].outcome {
        Err(e) => reads.len() == 1 && writes.len() == 0 && res == Err::<(), IoError>(e),
        Ok(_) => capture::copies(
            reads.skip(1),
            writes,
            extent.1 as nat,
            match res {
                Ok(_) => Ok(extent.1),
                Err(e) => Err(e),
            },
        ),
    }
}

/// Whether `reads` and `writes` can be cut after `r` and `w` steps.
pub open spec fn cut_at(reads: Seq<Step>, writes: Seq<Step>, r: int, w: int) -> bool {
    0 <= r <= reads.len() && 0 <= w <= writes.len()
}

/// Whether `reads` and `writes` copy the extents of `map` in turn.
pub open spec fn copies_extents(
    reads: Seq<Step>,
    writes: Seq<Step>,
    map: Seq<(u64, u64)>,
) -> bool
    decreases map.len(),
{
    if map.len() == 0 {
        reads.len() == 0 && writes.len() == 0
    } else {
        exists|r: int, w: int|
            {
                &&& #[trigger] cut_at(reads, writes, r, w)
                &&& copies_extents(reads.take(r), writes.take(w), map.drop_last())
                &&& copies_extent(reads.skip(r), writes.skip(w), map.last(), Ok(()))
            }
    }
}

/// Whether `reads` and `writes` copy the extents of `map` in turn until one of
/// them fails with `e`.
pub open spec fn fails_at_extent(
    reads: Seq<Step>,
    writes: Seq<Step>,
    map: Seq<(u64, u64)>,
    e: IoError,
) -> bool {
    exists|k: int, r: int, w: int|
        #![trigger map.take(k), cut_at(reads, writes, r, w)]
        {
            &&& 0 <= k < map.len()
            &&& cut_at(reads, writes, r, w)
            &&& copies_extents(reads.take(r), writes.take(w), map.take(k))
            &&& copies_extent(reads.skip(r), writes.skip(w), map[k], Err(e))
        }
}

/// Whether `reads` and `writes` append the image to an archive and end in
/// `res`: the blocks that describe it, its extents, and zeros up to the end of
/// the last block, until something fails.
pub open spec fn appends(
    reads: Seq<Step>,
    writes: Seq<Step>,
    logical: u64,
    map: Seq<(u64, u64)>,
    res: Result<(), IoError>,
) -> bool {
    let described = blocks(logical, map);
    let n = described.len() as int;
    ||| {
        &&& res is Err
        &&& reads.len() == 0
        &&& writes_blocks(writes, described, res)
    }
    ||| {
        &&& n <= writes.len()
        &&& writes_blocks(writes.take(n), described, Ok(()))
        &&& res matches Err(e) && fails_at_extent(reads, writes.skip(n), map, e)
    }
    ||| {
        &&& n < writes.len()
        &&& writes_blocks(writes.take(n), described, Ok(()))
        &&& copies_extents(reads, writes.skip(n).drop_last(), map)
        &&& writes.last().asked == Asked::WriteAll(padding(stored_len(map)))
        &&& match writes.last().outcome {
            Ok(_) => res is Ok,
            Err(e) => res == Err::<(), IoError>(e),
        }
    }
}

/// The sum of the lengths of the extents.
fn sum_lengths(map: &[(u64, u64)]) -> (sum: u64)
    requires
        stored_len(map@) <= u64::MAX,
    ensures
        sum == stored_len(map@),
{
    let mut sum: u64 = 0;
    let mut i: usize = 0;
    assert(map@.take(map@.len() as int) =~= map@);
    while i < map.len()
        invariant
            i <= map@.len(),
            stored_len(map@) <= u64::MAX,
            sum == stored_len(map@.take(i as int)),
        decreases map@.len() - i,
    {
        assert(map@.take(i + 1).drop_last() =~= map@.take(i as int));
        proof {
            lemma_stored_len_monotone(map@, i + 1);
        }
        sum = sum + map[i].1;
        i = i + 1;
    }
    sum
}

/// Fewer extents hold no more.
proof fn lemma_stored_len_monotone(map: Seq<(u64, u64)>, i: int)
    requires
        0 <= i <= map.len(),
    ensures
        stored_len(map.take(i)) <= stored_len(map),
    decreases map.len(),
{
    if i == map.len() {
        assert(map.take(i) =~= map);
    } else {
        lemma_stored_len_monotone(map.drop_last(), i);
        assert(map.drop_last().take(i) =~= map.take(i));
    }
}

/// Entries in a block leave its length, and the bytes outside them, alone.
pub(crate) proof fn lemma_with_slots(block: Seq<u8>, base: int, map: Seq<(u64, u64)>, n: nat)
    requires
        0 <= base,
        base + 24 * n <= block.len(),
        n <= map.len(),
    ensures
        with_slots(block, base, map, n).len() == block.len(),
        forall|i: int| #![trigger with_slots(block, base, map, n)[i]]
            0 <= i < block.len() && !(base <= i < base + 24 * n) ==> with_slots(
                block,
                base,
                map,
                n,
            )[i] == block[i],
    decreases n,
{
    broadcast use {header::lemma_put, header::lemma_number_field_len};

    if n > 0 {
        lemma_with_slots(block, base, map, (n - 1) as nat);
    }
}

/// The path in the header is a plain one.
pub(crate) proof fn lemma_path_is_plain()
    ensures
        header::is_plain_path("checkpoint/memory.bin"@),
        "checkpoint/memory.bin"@.len() == 21,
{
    reveal_strlit("checkpoint/memory.bin");
}

/// The header of the image.
fn image_header(logical: u64, map: &[(u64, u64)]) -> (res: Result<Vec<u8>, IoError>)
    requires
        stored_len(map@) <= u64::MAX,
    ensures
        res matches Ok(block) && block@ == header_block(logical, map@),
{
    broadcast use {
        header::lemma_put_keeps_gnu,
        header::lemma_number_field_len,
        header::lemma_octal_field_len,
    };

    let stored: u64 = sum_lengths(map);
    let gnu = new_gnu();
    proof {
        header::lemma_new_is_gnu();
        lemma_path_is_plain();
    }
    let named = match set_path(gnu.as_slice(), "checkpoint/memory.bin") {
        Ok(named) => named,
        Err(_) => return Err(IoError::new(IoErrorKind::Other, "path does not fit the header")),
    };
    let moded = set_mode(named.as_slice(), 0o600);
    let typed = set_entry_type(moded.as_slice(), 0x53);
    let sized = set_size(typed.as_slice(), stored);
    let plain = set_real_size(sized.as_slice(), logical);
    let ghost bare = plain@;
    let mut head = plain;
    let n: usize = if map.len() < 4 {
        map.len()
    } else {
        4
    };
    let mut i: usize = 0;
    while i < n
        invariant
            i <= n <= 4,
            n <= map@.len(),
            header::is_gnu(head@),
            head@ == with_slots(bare, 386, map@, i as nat),
        decreases n - i,
    {
        broadcast use {header::lemma_put_keeps_gnu, header::lemma_number_field_len};

        head = set_slot(head.as_slice(), i, map[i].0, map[i].1);
        i = i + 1;
    }
    let marked = set_is_extended(head.as_slice(), map.len() > 4);
    Ok(set_cksum(marked.as_slice()))
}

/// The block with the extents `part`.
fn more_extents(part: &[(u64, u64)], more: bool) -> (block: Vec<u8>)
    requires
        part@.len() <= 21,
    ensures
        block@ == ext_block(part@, more),
{
    let mut block = new_ext();
    let mut i: usize = 0;
    while i < part.len()
        invariant
            i <= part@.len() <= 21,
            block@.len() == header::BLOCK,
            block@ == with_slots(header::blank(), 0, part@, i as nat),
        decreases part@.len() - i,
    {
        broadcast use {header::lemma_put, header::lemma_number_field_len};

        block = set_ext_slot(block.as_slice(), i, part[i].0, part[i].1);
        i = i + 1;
    }
    set_ext_extended(block.as_slice(), more)
}

/// Writes the blocks that describe the image.
fn write_blocks<W: for<'a> Fn(Action<'a>) -> Result<Vec<u8>, IoError>>(
    archive: &mut Stream<W>,
    logical: u64,
    map: &[(u64, u64)],
) -> (res: Result<(), IoError>)
    requires
        old(archive).wf(),
        stored_len(map@) <= u64::MAX,
    ensures
        exists|writes: Seq<Step>| #[trigger]
            final(archive).ran(old(archive), writes) && writes_blocks(
                writes,
                blocks(logical, map@),
                res,
            ),
{
    let ghost described = blocks(logical, map@);
    let head = match image_header(logical, map) {
        Ok(head) => head,
        Err(e) => return Err(e),
    };
    let first = archive.perform(Action::WriteAll(head.as_slice()));
    let ghost mut writes: Seq<Step> = seq![
        Step { asked: Asked::WriteAll(head@), outcome: stream::seen(first) },
    ];
    assert(archive.ran(old(archive), writes));
    if let Err(e) = first {
        assert(writes_blocks(writes, described, Err(e)));
        return Err(e);
    }
    let start: usize = if map.len() < 4 {
        map.len()
    } else {
        4
    };
    let ghost mut done: Seq<Seq<u8>> = seq![head@];
    let mut at: usize = start;
    while at < map.len()
        invariant
            start <= at <= map@.len(),
            described == blocks(logical, map@),
            archive.ran(old(archive), writes),
            described == done + ext_blocks(map@.skip(at as int)),
            writes.len() == done.len() > 0,
            forall|i: int|
                0 <= i < writes.len() ==> (#[trigger] writes[i]).asked == Asked::WriteAll(done[i])
                    && writes[i].outcome is Ok,
        decreases map@.len() - at,
    {
        let left: usize = map.len() - at;
        let n: usize = if left < 21 {
            left
        } else {
            21
        };
        let ghost rest = map@.skip(at as int);
        let part = slice_subrange(map, at, at + n);
        let block = more_extents(part, n < left);
        let wrote = archive.perform(Action::WriteAll(block.as_slice()));
        let ghost step = Step { asked: Asked::WriteAll(block@), outcome: stream::seen(wrote) };
        proof {
            assert(part@ =~= rest.take(n as int));
            assert(map@.skip(at + n) =~= rest.skip(n as int));
            if left <= 21 {
                assert(rest.take(n as int) =~= rest);
                assert(ext_blocks(rest.skip(n as int)) =~= Seq::<Seq<u8>>::empty());
            }
            assert(ext_blocks(rest) =~= seq![block@] + ext_blocks(rest.skip(n as int)));
            assert(described =~= done.push(block@) + ext_blocks(map@.skip(at + n)));
            assert(archive.log() =~= old(archive).log() + writes.push(step));
            assert(archive.ran(old(archive), writes.push(step)));
        }
        if let Err(e) = wrote {
            assert(writes_blocks(writes.push(step), described, Err(e)));
            return Err(e);
        }
        proof {
            writes = writes.push(step);
            done = done.push(block@);
        }
        at = at + n;
    }
    assert(described =~= done);
    assert(writes_blocks(writes, described, Ok(())));
    Ok(())
}

/// The copy of the next extent decides.
proof fn lemma_next_extent(
    reads: Seq<Step>,
    writes: Seq<Step>,
    more_reads: Seq<Step>,
    more_writes: Seq<Step>,
    map: Seq<(u64, u64)>,
    k: int,
    res: Result<(), IoError>,
)
    requires
        0 <= k < map.len(),
        copies_extents(reads, writes, map.take(k)),
        copies_extent(more_reads, more_writes, map[k], res),
    ensures
        match res {
            Ok(_) => copies_extents(reads + more_reads, writes + more_writes, map.take(k + 1)),
            Err(e) => fails_at_extent(reads + more_reads, writes + more_writes, map, e),
        },
{
    let all_reads = reads + more_reads;
    let all_writes = writes + more_writes;
    let r = reads.len() as int;
    let w = writes.len() as int;
    assert(all_reads.take(r) =~= reads);
    assert(all_reads.skip(r) =~= more_reads);
    assert(all_writes.take(w) =~= writes);
    assert(all_writes.skip(w) =~= more_writes);
    assert(cut_at(all_reads, all_writes, r, w));
    assert(map.take(k + 1).drop_last() =~= map.take(k));
}

/// The parts of an append make up the whole.
proof fn lemma_appends(
    reads: Seq<Step>,
    head: Seq<Step>,
    body: Seq<Step>,
    last: Step,
    logical: u64,
    map: Seq<(u64, u64)>,
    res: Result<(), IoError>,
)
    requires
        writes_blocks(head, blocks(logical, map), Ok(())),
    ensures
        (res matches Err(e) && fails_at_extent(reads, body, map, e)) ==> appends(
            reads,
            head + body,
            logical,
            map,
            res,
        ),
        ({
            &&& copies_extents(reads, body, map)
            &&& last.asked == Asked::WriteAll(padding(stored_len(map)))
            &&& match last.outcome {
                Ok(_) => res is Ok,
                Err(e) => res == Err::<(), IoError>(e),
            }
        }) ==> appends(reads, (head + body).push(last), logical, map, res),
{
    let n = blocks(logical, map).len() as int;
    assert((head + body).take(n) =~= head);
    assert((head + body).skip(n) =~= body);
    let writes = (head + body).push(last);
    assert(writes.take(n) =~= head);
    assert(writes.skip(n).drop_last() =~= body);
}

/// Copies one extent from `source` to `archive`.
fn copy_extent<
    W: for<'a> Fn(Action<'a>) -> Result<Vec<u8>, IoError>,
    R: for<'a> Fn(Action<'a>) -> Result<Vec<u8>, IoError>,
>(archive: &mut Stream<W>, source: &mut Stream<R>, extent: (u64, u64)) -> (res: Result<
    (),
    IoError,
>)
    requires
        old(archive).wf(),
        old(source).wf(),
    ensures
        exists|reads: Seq<Step>, writes: Seq<Step>|
            #![trigger final(source).ran(old(source), reads), final(archive).ran(old(archive), writes)]
            final(source).ran(old(source), reads) && final(archive).ran(old(archive), writes)
                && copies_extent(reads, writes, extent, res),
{
    let (offset, len): (u64, u64) = extent;
    let sought = source.perform(Action::Seek(offset));
    let ghost seek = Step { asked: Asked::Seek(offset as nat), outcome: stream::seen(sought) };
    let ghost source_middle = *source;
    if let Err(e) = sought {
        proof {
            let none: Seq<Step> = Seq::empty();
            assert(source.ran(old(source), seq![seek]));
            assert(archive.ran(old(archive), none));
            assert(copies_extent(seq![seek], none, extent, Err(e)));
        }
        return Err(e);
    }
    let mut remaining: u64 = len;
    let copied = copy_remaining(source, &mut remaining, archive);
    proof {
        let (r, w) = choose|r: Seq<Step>, w: Seq<Step>|
            #![trigger source.ran(&source_middle, r), archive.ran(old(archive), w)]
            source.ran(&source_middle, r) && archive.ran(old(archive), w) && capture::copies(
                r,
                w,
                len as nat,
                copied,
            );
        let reads = seq![seek] + r;
        assert(source.log() =~= old(source).log() + reads);
        assert(source.ran(old(source), reads));
        assert(archive.ran(old(archive), w));
        assert(reads.skip(1) =~= r);
    }
    match copied {
        Ok(_) => Ok(()),
        Err(e) => Err(e),
    }
}

/// Copies the extents of `map` from `source` to `archive`.
fn copy_extents<
    W: for<'a> Fn(Action<'a>) -> Result<Vec<u8>, IoError>,
    R: for<'a> Fn(Action<'a>) -> Result<Vec<u8>, IoError>,
>(archive: &mut Stream<W>, source: &mut Stream<R>, map: &[(u64, u64)]) -> (res: Result<
    (),
    IoError,
>)
    requires
        old(archive).wf(),
        old(source).wf(),
    ensures
        exists|reads: Seq<Step>, writes: Seq<Step>|
            #![trigger final(source).ran(old(source), reads), final(archive).ran(old(archive), writes)]
            final(source).ran(old(source), reads) && final(archive).ran(old(archive), writes)
                && match res {
                Ok(_) => copies_extents(reads, writes, map@),
                Err(e) => fails_at_extent(reads, writes, map@, e),
            },
{
    let ghost mut reads: Seq<Step> = Seq::empty();
    let ghost mut writes: Seq<Step> = Seq::empty();
    assert(source.ran(old(source), reads));
    assert(archive.ran(old(archive), writes));
    let mut k: usize = 0;
    while k < map.len()
        invariant
            k <= map@.len(),
            source.ran(old(source), reads),
            archive.ran(old(archive), writes),
            copies_extents(reads, writes, map@.take(k as int)),
        decreases map@.len() - k,
    {
        let ghost source_before = *source;
        let ghost archive_before = *archive;
        let copied = copy_extent(archive, source, map[k]);
        proof {
            let (r, w) = choose|r: Seq<Step>, w: Seq<Step>|
                #![trigger source.ran(&source_before, r), archive.ran(&archive_before, w)]
                source.ran(&source_before, r) && archive.ran(&archive_before, w)
                    && copies_extent(r, w, map@[k as int], copied);
            assert(source.log() =~= old(source).log() + (reads + r));
            assert(archive.log() =~= old(archive).log() + (writes + w));
            assert(source.ran(old(source), reads + r));
            assert(archive.ran(old(archive), writes + w));
            lemma_next_extent(reads, writes, r, w, map@, k as int, copied);
            reads = reads + r;
            writes = writes + w;
        }
        if let Err(e) = copied {
            return Err(e);
        }
        k = k + 1;
    }
    assert(map@.take(k as int) =~= map@);
    Ok(())
}

/// Appends the image of `logical` bytes in `source` to the archive as a sparse
/// file, of which the extents are stored.
pub fn append_sparse<
    W: for<'a> Fn(Action<'a>) -> Result<Vec<u8>, IoError>,
    R: for<'a> Fn(Action<'a>) -> Result<Vec<u8>, IoError>,
>(
    archive: &mut Stream<W>,
    source: &mut Stream<R>,
    logical: u64,
    extents: &[(u64, u64)],
) -> (res: Result<(), IoError>)
    requires
        old(archive).wf(),
        old(source).wf(),
        stored_len(extents@) <= u64::MAX,
    ensures
        exists|reads: Seq<Step>, writes: Seq<Step>|
            #![trigger final(source).ran(old(source), reads), final(archive).ran(old(archive), writes)]
            final(source).ran(old(source), reads) && final(archive).ran(old(archive), writes)
                && appends(reads, writes, logical, extents@, res),
{
    let ghost described = blocks(logical, extents@);
    let wrote = write_blocks(archive, logical, extents);
    let ghost head = choose|writes: Seq<Step>| #[trigger]
        archive.ran(old(archive), writes) && writes_blocks(writes, described, wrote);
    let ghost archive_described = *archive;
    let ghost untouched: Seq<Step> = Seq::empty();
    assert(source.ran(old(source), untouched));
    if let Err(e) = wrote {
        assert(appends(untouched, head, logical, extents@, Err(e)));
        return Err(e);
    }
    let copied = copy_extents(archive, source, extents);
    let ghost archive_filled = *archive;
    let ghost (reads, body) = choose|reads: Seq<Step>, writes: Seq<Step>|
        #![trigger source.ran(old(source), reads), archive_filled.ran(&archive_described, writes)]
        source.ran(old(source), reads) && archive_filled.ran(&archive_described, writes)
            && match copied {
            Ok(_) => copies_extents(reads, writes, extents@),
            Err(e) => fails_at_extent(reads, writes, extents@, e),
        };
    if let Err(e) = copied {
        proof {
            let writes = head + body;
            assert(archive.log() =~= old(archive).log() + writes);
            assert(archive.ran(old(archive), writes));
            lemma_appends(reads, head, body, arbitrary(), logical, extents@, Err(e));
        }
        return Err(e);
    }
    let stored: u64 = sum_lengths(extents);
    let fill: usize = ((512 - stored % 512) % 512) as usize;
    let mut zeros: Vec<u8> = Vec::new();
    let mut i: usize = 0;
    while i < fill
        invariant
            i <= fill,
            zeros@ =~= extents::zeros(i as int),
        decreases fill - i,
    {
        zeros.push(0);
        i = i + 1;
    }
    let padded = archive.perform(Action::WriteAll(zeros.as_slice()));
    let ghost last = Step { asked: Asked::WriteAll(zeros@), outcome: stream::seen(padded) };
    let res = match padded {
        Ok(_) => Ok(()),
        Err(e) => Err(e),
    };
    proof {
        let writes = (head + body).push(last);
        assert(archive.log() =~= old(archive).log() + writes);
        assert(archive.ran(old(archive), writes));
        lemma_appends(reads, head, body, last, logical, extents@, res);
    }
    res
}

/// An append that fails reports the failure that ended it: that of the last
/// write, that of the last read, or that the source was at its end.
pub proof fn law_append_reports_its_failure(
    reads: Seq<Step>,
    writes: Seq<Step>,
    logical: u64,
    map: Seq<(u64, u64)>,
    e: IoError,
)
    requires
        appends(reads, writes, logical, map, Err(e)),
    ensures
        ({
            ||| writes.len() > 0 && writes.last().outcome == Err::<Seq<u8>, IoError>(e)
            ||| reads.len() > 0 && reads.last().outcome == Err::<Seq<u8>, IoError>(e)
            ||| {
                &&& reads.len() > 0
                &&& reads.last().outcome matches Ok(bytes) && bytes.len() == 0
                &&& e.says(IoErrorKind::UnexpectedEof, "short RAM stream"@)
            }
        }),
{
    let n = blocks(logical, map).len() as int;
    let body = writes.skip(n);
    if n <= writes.len() && fails_at_extent(reads, body, map, e) {
        let (k, r, w) = choose|k: int, r: int, w: int|
            #![trigger map.take(k), cut_at(reads, body, r, w)]
            {
                &&& 0 <= k < map.len()
                &&& cut_at(reads, body, r, w)
                &&& copies_extents(reads.take(r), body.take(w), map.take(k))
                &&& copies_extent(reads.skip(r), body.skip(w), map[k], Err(e))
            };
        assert(cut_at(reads, body, r, w));
        let more_reads = reads.skip(r);
        let more_writes = body.skip(w);
        assert(more_reads.len() > 0 && reads.last() == more_reads.last());
        if more_reads[0].outcome is Ok {
            let rest = more_reads.skip(1);
            capture::law_copy_reports_its_failure(rest, more_writes, map[k].1 as nat, e);
            assert(reads.last() == rest.last());
            if more_writes.len() > 0 {
                assert(writes.last() == more_writes.last());
            }
        }
    }
}

} // verus!
