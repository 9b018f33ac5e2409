//! The blocks that describe a sparse file in a tar archive, made with the `tar`
//! crate.
//!
//! A header is a block of bytes; what each call of the `tar` crate does to it is
//! stated here as bytes put at an offset.

use vstd::arithmetic::power::*;
use vstd::prelude::*;

verus! {

/// The length of a block.
pub const BLOCK: usize = 512;

/// `bytes` with `field` in place of what was at `at`.
pub open spec fn put(bytes: Seq<u8>, at: int, field: Seq<u8>) -> Seq<u8> {
    bytes.take(at) + field + bytes.skip(at + field.len())
}

/// The `n` low octal digits of `v`, most significant first.
pub open spec fn octal_digits(v: nat, n: nat) -> Seq<u8>
    decreases n,
{
    if n == 0 {
        Seq::empty()
    } else {
        octal_digits(v / 8, (n - 1) as nat).push((48 + v % 8) as u8)
    }
}

/// `v` in a field of `n` bytes: octal digits and a zero byte.
pub open spec fn octal_field(v: nat, n: nat) -> Seq<u8> {
    octal_digits(v, (n - 1) as nat).push(0)
}

/// The `n` low bytes of `v`, most significant first.
pub open spec fn be_bytes(v: nat, n: nat) -> Seq<u8>
    decreases n,
{
    if n == 0 {
        Seq::empty()
    } else {
        be_bytes(v / 256, (n - 1) as nat).push((v % 256) as u8)
    }
}

/// `v` in a field of twelve bytes: octal where eleven digits suffice, else
/// binary behind a mark.
pub open spec fn number_field(v: nat) -> Seq<u8> {
    if v < 0x2_0000_0000 {
        octal_field(v, 12)
    } else {
        seq![0x80u8, 0, 0, 0] + be_bytes(v, 8)
    }
}

/// The number whose octal digits are `s`.
pub open spec fn octal_value(s: Seq<u8>) -> int
    decreases s.len(),
{
    if s.len() == 0 {
        0
    } else {
        8 * octal_value(s.drop_last()) + (s.last() - 48)
    }
}

/// The number whose big-endian bytes are `s`.
pub open spec fn be_value(s: Seq<u8>) -> int
    decreases s.len(),
{
    if s.len() == 0 {
        0
    } else {
        256 * be_value(s.drop_last()) + s.last()
    }
}

/// The number in a field of twelve bytes.
pub open spec fn number_value(field: Seq<u8>) -> int {
    if field[0] == 0x80 {
        be_value(field.skip(4))
    } else {
        octal_value(field.take(11))
    }
}

/// The sum of `bytes`.
pub open spec fn total(bytes: Seq<u8>) -> nat
    decreases bytes.len(),
{
    if bytes.len() == 0 {
        0
    } else {
        total(bytes.drop_last()) + bytes.last() as nat
    }
}

/// The checksum of a header: the sum of its bytes, with spaces for those of the
/// checksum itself.
pub open spec fn checksum(block: Seq<u8>) -> nat {
    total(block.take(148)) + 8 * 32 + total(block.skip(156))
}

/// A block of zeros.
pub open spec fn blank() -> Seq<u8> {
    Seq::new(BLOCK as nat, |i: int| 0u8)
}

/// The mark of a GNU header.
pub open spec fn gnu_magic() -> Seq<u8> {
    seq![0x75u8, 0x73, 0x74, 0x61, 0x72, 0x20, 0x20, 0]
}

/// Whether `block` is marked as a GNU header.
pub open spec fn is_gnu(block: Seq<u8>) -> bool {
    block.len() == BLOCK && block.subrange(257, 265) == gnu_magic()
}

/// Whether `c` may stand in a plain path.
pub open spec fn is_plain(c: char) -> bool {
    ||| 'a' <= c <= 'z'
    ||| 'A' <= c <= 'Z'
    ||| '0' <= c <= '9'
    ||| c == '.'
    ||| c == '_'
    ||| c == '-'
    ||| c == '/'
}

/// Whether `path` is short, relative, made of plain characters, and every
/// component starts with a lower-case letter.
pub open spec fn is_plain_path(path: Seq<char>) -> bool {
    &&& 0 < path.len() < 100
    &&& forall|i: int| 0 <= i < path.len() ==> is_plain(#[trigger] path[i])
    &&& forall|i: int|
        0 <= i < path.len() && (i == 0 || path[i - 1] == '/') ==> 'a' <= #[trigger] path[i] <= 'z'
    &&& path.last() != '/'
}

/// The bytes of a path of plain characters, and the zero byte behind it.
pub open spec fn path_field(path: Seq<char>) -> Seq<u8> {
    Seq::new(path.len(), |i: int| path[i] as u8).push(0)
}

/// The error that the `tar` crate reports.
#[verifier::external_type_specification]
#[verifier::external_body]
pub struct ExIoError(std::io::Error);

/// Calls `tar::Header::new_gnu`: a block of zeros but for the mark of a GNU
/// header and a modification time of 0.
#[verifier::external_body]
pub(crate) fn new_gnu() -> (block: Vec<u8>)
    ensures
        block@ == put(put(blank(), 257, gnu_magic()), 136, octal_field(0, 12)),
{
    tar::Header::new_gnu().as_bytes().to_vec()
}

/// Calls `tar::Header::set_path` on the header that `block` holds. On a GNU
/// header it accepts a plain path and puts it, followed by a zero byte, at the
/// start. Other paths, of which it refuses some and rewrites others, are left
/// out.
#[verifier::external_body]
pub(crate) fn set_path(block: &[u8], path: &str) -> (res: Result<Vec<u8>, std::io::Error>)
    requires
        is_gnu(block@),
        is_plain_path(path@),
    ensures
        res is Ok,
        res->Ok_0@ == put(block@, 0, path_field(path@)),
{
    let mut header = tar::Header::from_byte_slice(block).clone();
    header.set_path(path)?;
    Ok(header.as_bytes().to_vec())
}

/// Calls `tar::Header::set_mode` on the header that `block` holds: the mode in
/// octal.
#[verifier::external_body]
pub(crate) fn set_mode(block: &[u8], mode: u32) -> (after: Vec<u8>)
    requires
        block@.len() == BLOCK,
    ensures
        after@ == put(block@, 100, octal_field(mode as nat, 8)),
{
    let mut header = tar::Header::from_byte_slice(block).clone();
    header.set_mode(mode);
    header.as_bytes().to_vec()
}

/// Calls `tar::Header::set_entry_type` on the header that `block` holds, with
/// the type that `tar::EntryType::new` makes of `kind`: the byte itself. (The
/// zero byte, which stands for a regular file, becomes another one.)
#[verifier::external_body]
pub(crate) fn set_entry_type(block: &[u8], kind: u8) -> (after: Vec<u8>)
    requires
        block@.len() == BLOCK,
        kind != 0,
    ensures
        after@ == put(block@, 156, seq![kind]),
{
    let mut header = tar::Header::from_byte_slice(block).clone();
    header.set_entry_type(tar::EntryType::new(kind));
    header.as_bytes().to_vec()
}

/// Calls `tar::Header::set_size` on the header that `block` holds: the number of
/// bytes that follow it.
#[verifier::external_body]
pub(crate) fn set_size(block: &[u8], size: u64) -> (after: Vec<u8>)
    requires
        block@.len() == BLOCK,
    ensures
        after@ == put(block@, 124, number_field(size as nat)),
{
    let mut header = tar::Header::from_byte_slice(block).clone();
    header.set_size(size);
    header.as_bytes().to_vec()
}

/// Calls `tar::GnuHeader::set_real_size` on the header that `block` holds: the
/// length of the whole file. It must be a GNU header: `as_gnu_mut` gives nothing
/// for another.
#[verifier::external_body]
pub(crate) fn set_real_size(block: &[u8], size: u64) -> (after: Vec<u8>)
    requires
        is_gnu(block@),
    ensures
        after@ == put(block@, 483, number_field(size as nat)),
{
    let mut header = tar::Header::from_byte_slice(block).clone();
    header.as_gnu_mut().unwrap().set_real_size(size);
    header.as_bytes().to_vec()
}

/// Calls `tar::GnuSparseHeader::set_offset` and `set_length` on the `i`th of the
/// four sparse map entries of the GNU header that `block` holds.
#[verifier::external_body]
pub(crate) fn set_slot(block: &[u8], i: usize, offset: u64, length: u64) -> (after: Vec<u8>)
    requires
        is_gnu(block@),
        i < 4,
    ensures
        after@ == put(
            put(block@, 386 + 24 * i, number_field(offset as nat)),
            398 + 24 * i,
            number_field(length as nat),
        ),
{
    let mut header = tar::Header::from_byte_slice(block).clone();
    let slot = &mut header.as_gnu_mut().unwrap().sparse[i];
    slot.set_offset(offset);
    slot.set_length(length);
    header.as_bytes().to_vec()
}

/// Calls `tar::GnuHeader::set_is_extended` on the header that `block` holds:
/// whether a block with more sparse map entries follows.
#[verifier::external_body]
pub(crate) fn set_is_extended(block: &[u8], extended: bool) -> (after: Vec<u8>)
    requires
        is_gnu(block@),
    ensures
        after@ == put(block@, 482, seq![if extended { 1u8 } else { 0u8 }]),
{
    let mut header = tar::Header::from_byte_slice(block).clone();
    header.as_gnu_mut().unwrap().set_is_extended(extended);
    header.as_bytes().to_vec()
}

/// Calls `tar::Header::set_cksum` on the header that `block` holds: the checksum
/// in octal.
#[verifier::external_body]
pub(crate) fn set_cksum(block: &[u8]) -> (after: Vec<u8>)
    requires
        block@.len() == BLOCK,
    ensures
        after@ == put(block@, 148, octal_field(checksum(block@), 8)),
{
    let mut header = tar::Header::from_byte_slice(block).clone();
    header.set_cksum();
    header.as_bytes().to_vec()
}

/// Calls `tar::GnuExtSparseHeader::new`: a block of zeros.
#[verifier::external_body]
pub(crate) fn new_ext() -> (block: Vec<u8>)
    ensures
        block@ == blank(),
{
    tar::GnuExtSparseHeader::new().as_bytes().to_vec()
}

/// Calls `tar::GnuSparseHeader::set_offset` and `set_length` on the `i`th of the
/// 21 entries of the block with more sparse map entries that `block` holds.
#[verifier::external_body]
pub(crate) fn set_ext_slot(block: &[u8], i: usize, offset: u64, length: u64) -> (after: Vec<u8>)
    requires
        block@.len() == BLOCK,
        i < 21,
    ensures
        after@ == put(
            put(block@, 24 * i, number_field(offset as nat)),
            24 * i + 12,
            number_field(length as nat),
        ),
{
    let mut ext = tar::GnuExtSparseHeader::new();
    ext.as_mut_bytes().copy_from_slice(block);
    ext.sparse_mut()[i].set_offset(offset);
    ext.sparse_mut()[i].set_length(length);
    ext.as_bytes().to_vec()
}

/// Calls `tar::GnuExtSparseHeader::set_is_extended` on the block with more
/// sparse map entries that `block` holds: whether another such block follows.
#[verifier::external_body]
pub(crate) fn set_ext_extended(block: &[u8], extended: bool) -> (after: Vec<u8>)
    requires
        block@.len() == BLOCK,
    ensures
        after@ == put(block@, 504, seq![if extended { 1u8 } else { 0u8 }]),
{
    let mut ext = tar::GnuExtSparseHeader::new();
    ext.as_mut_bytes().copy_from_slice(block);
    ext.set_is_extended(extended);
    ext.as_bytes().to_vec()
}

/// A field that replaces bytes of a block leaves its length and the other bytes
/// as they are.
pub broadcast proof fn lemma_put(bytes: Seq<u8>, at: int, field: Seq<u8>)
    requires
        0 <= at <= at + field.len() <= bytes.len(),
    ensures
        (#[trigger] put(bytes, at, field)).len() == bytes.len(),
        forall|i: int| #![trigger put(bytes, at, field)[i]]
            0 <= i < bytes.len() ==> put(bytes, at, field)[i] == if at <= i < at + field.len() {
                field[i - at]
            } else {
                bytes[i]
            },
{
}

/// A header stays a GNU header as long as its mark is left alone.
pub broadcast proof fn lemma_put_keeps_gnu(block: Seq<u8>, at: int, field: Seq<u8>)
    requires
        is_gnu(block),
        0 <= at <= at + field.len() <= BLOCK,
        at + field.len() <= 257 || 265 <= at,
    ensures
        #[trigger] is_gnu(put(block, at, field)),
{
    lemma_put(block, at, field);
    assert(put(block, at, field).subrange(257, 265) =~= block.subrange(257, 265));
}

/// A new GNU header is one.
pub proof fn lemma_new_is_gnu()
    ensures
        is_gnu(put(put(blank(), 257, gnu_magic()), 136, octal_field(0, 12))),
{
    lemma_put(blank(), 257, gnu_magic());
    assert(put(blank(), 257, gnu_magic()).subrange(257, 265) =~= gnu_magic());
    lemma_octal_field_len(0, 12);
    lemma_put_keeps_gnu(put(blank(), 257, gnu_magic()), 136, octal_field(0, 12));
}

/// Octal fields have the asked length.
pub broadcast proof fn lemma_octal_field_len(v: nat, n: nat)
    requires
        n > 0,
    ensures
        (#[trigger] octal_field(v, n)).len() == n,
{
    lemma_octal_digits_len(v, (n - 1) as nat);
}

/// There are as many octal digits as asked for.
pub(crate) proof fn lemma_octal_digits_len(v: nat, n: nat)
    ensures
        octal_digits(v, n).len() == n,
    decreases n,
{
    if n > 0 {
        lemma_octal_digits_len(v / 8, (n - 1) as nat);
    }
}

/// There are as many bytes as asked for.
proof fn lemma_be_bytes_len(v: nat, n: nat)
    ensures
        be_bytes(v, n).len() == n,
    decreases n,
{
    if n > 0 {
        lemma_be_bytes_len(v / 256, (n - 1) as nat);
    }
}

/// Number fields have twelve bytes.
pub broadcast proof fn lemma_number_field_len(v: nat)
    ensures
        (#[trigger] number_field(v)).len() == 12,
{
    lemma_octal_field_len(v, 12);
    lemma_be_bytes_len(v, 8);
}

/// Octal digits are read back.
pub(crate) proof fn lemma_octal_value(v: nat, n: nat)
    requires
        v < pow(8, n),
    ensures
        octal_value(octal_digits(v, n)) == v,
        forall|i: int|
            0 <= i < octal_digits(v, n).len() ==> 48 <= #[trigger] octal_digits(v, n)[i] <= 55,
    decreases n,
{
    if n == 0 {
        lemma_pow0(8);
    } else {
        reveal(pow);
        let m = (n - 1) as nat;
        assert(v / 8 < pow(8, m)) by (nonlinear_arith)
            requires
                v < 8 * pow(8, m),
        ;
        lemma_octal_value(v / 8, m);
        assert(octal_digits(v, n).drop_last() =~= octal_digits(v / 8, m));
        assert forall|i: int| 0 <= i < octal_digits(v, n).len() implies 48 <= #[trigger] octal_digits(
            v,
            n,
        )[i] <= 55 by {
            if i < octal_digits(v / 8, m).len() {
                assert(octal_digits(v, n)[i] == octal_digits(v / 8, m)[i]);
            }
        }
    }
}

/// Big-endian bytes are read back.
proof fn lemma_be_value(v: nat, n: nat)
    requires
        v < pow(256, n),
    ensures
        be_value(be_bytes(v, n)) == v,
    decreases n,
{
    if n == 0 {
        lemma_pow0(256);
    } else {
        reveal(pow);
        let m = (n - 1) as nat;
        assert(v / 256 < pow(256, m)) by (nonlinear_arith)
            requires
                v < 256 * pow(256, m),
        ;
        lemma_be_value(v / 256, m);
        assert(be_bytes(v, n).drop_last() =~= be_bytes(v / 256, m));
    }
}

/// A number is read back from its field, which does not look like an unused
/// one: its first byte is not zero.
pub proof fn law_number_is_read_back(v: u64)
    ensures
        number_value(number_field(v as nat)) == v,
        number_field(v as nat)[0] != 0,
{
    let field = number_field(v as nat);
    lemma_number_field_len(v as nat);
    if v < 0x2_0000_0000 {
        reveal_with_fuel(pow, 12);
        lemma_octal_digits_len(v as nat, 11);
        lemma_octal_value(v as nat, 11);
        assert(field.take(11) =~= octal_digits(v as nat, 11));
        assert(field[0] == octal_digits(v as nat, 11)[0]);
    } else {
        reveal_with_fuel(pow, 9);
        lemma_be_bytes_len(v as nat, 8);
        lemma_be_value(v as nat, 8);
        assert(field.skip(4) =~= be_bytes(v as nat, 8));
    }
}

} // verus!
