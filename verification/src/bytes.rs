//! Little-endian integers: their byte sequences, writing them at the end of a
//! buffer, and reading them from a cursor.

use crate::stream::{IoError, IoErrorKind};
use vstd::arithmetic::power::*;
use vstd::prelude::*;
use vstd::slice::{slice_subrange, slice_to_vec};

verus! {

/// The `n` low bytes of `v`, least significant first.
pub open spec fn le_bytes(v: nat, n: nat) -> Seq<u8>
    decreases n,
{
    if n == 0 {
        Seq::empty()
    } else {
        seq![(v % 256) as u8] + le_bytes(v / 256, (n - 1) as nat)
    }
}

/// The number whose little-endian bytes are `s`.
pub open spec fn le_value(s: Seq<u8>) -> nat
    decreases s.len(),
{
    if s.len() == 0 {
        0
    } else {
        s[0] as nat + 256 * le_value(s.skip(1))
    }
}

/// The two's complement bit pattern of `v`, as an unsigned number.
pub open spec fn i32_bits(v: i32) -> nat {
    if v < 0 {
        (v + 0x1_0000_0000) as nat
    } else {
        v as nat
    }
}

/// The signed number whose two's complement bit pattern is `bits`.
pub open spec fn i32_of_bits(bits: nat) -> int {
    if bits < 0x8000_0000 {
        bits as int
    } else {
        bits - 0x1_0000_0000
    }
}

/// The encoding has exactly the asked number of bytes.
pub broadcast proof fn lemma_le_bytes_len(v: nat, n: nat)
    ensures
        #[trigger] le_bytes(v, n).len() == n,
    decreases n,
{
    if n > 0 {
        lemma_le_bytes_len(v / 256, (n - 1) as nat);
    }
}

/// A value is below the power of 256 given by the number of its bytes.
pub proof fn lemma_le_value_bound(s: Seq<u8>)
    ensures
        le_value(s) < pow(256, s.len()),
    decreases s.len(),
{
    if s.len() == 0 {
        lemma_pow0(256);
    } else {
        lemma_le_value_bound(s.skip(1));
        reveal(pow);
    }
}

/// Reading back the bytes of a number that fits gives the number.
pub proof fn law_value_of_bytes(v: nat, n: nat)
    requires
        v < pow(256, n),
    ensures
        le_value(le_bytes(v, n)) == v,
    decreases n,
{
    if n == 0 {
        lemma_pow0(256);
    } else {
        reveal(pow);
        assert(v / 256 < pow(256, (n - 1) as nat)) by (nonlinear_arith)
            requires
                v < 256 * pow(256, (n - 1) as nat),
        ;
        law_value_of_bytes(v / 256, (n - 1) as nat);
        assert(le_bytes(v, n).skip(1) =~= le_bytes(v / 256, (n - 1) as nat));
    }
}

/// Encoding the value of some bytes gives those bytes.
pub proof fn law_bytes_of_value(s: Seq<u8>)
    ensures
        le_bytes(le_value(s), s.len()) == s,
    decreases s.len(),
{
    if s.len() > 0 {
        law_bytes_of_value(s.skip(1));
        assert(s =~= seq![s[0]] + s.skip(1));
    }
}

/// The powers that bound the integers of the protocol.
pub proof fn lemma_pow256()
    ensures
        pow(256, 4) == 0x1_0000_0000,
        pow(256, 8) == 0x1_0000_0000_0000_0000,
{
    reveal_with_fuel(pow, 9);
}

/// The bit pattern determines the signed number.
pub proof fn law_i32_bits(v: i32)
    ensures
        i32_of_bits(i32_bits(v)) == v,
        i32_bits(v) < 0x1_0000_0000,
{
}

/// Appends the `n` low bytes of `v`.
fn push_le(buf: &mut Vec<u8>, v: u64, n: usize)
    ensures
        final(buf)@ == old(buf)@ + le_bytes(v as nat, n as nat),
{
    let mut rest: u64 = v;
    let mut left: usize = n;
    assert(buf@ + le_bytes(rest as nat, left as nat) =~= old(buf)@ + le_bytes(v as nat, n as nat));
    while left > 0
        invariant
            buf@ + le_bytes(rest as nat, left as nat) == old(buf)@ + le_bytes(v as nat, n as nat),
        decreases left,
    {
        let ghost before = buf@;
        buf.push((rest % 256) as u8);
        assert(buf@ + le_bytes((rest / 256) as nat, (left - 1) as nat) =~= before + le_bytes(
            rest as nat,
            left as nat,
        ));
        rest = rest / 256;
        left = left - 1;
    }
    assert(buf@ =~= buf@ + le_bytes(rest as nat, 0));
}

/// The number encoded by the `n` bytes of `data` that start at `at`.
fn value_at(data: &[u8], at: usize, n: usize) -> (v: u64)
    requires
        n <= 8,
        at + n <= data@.len(),
    ensures
        v == le_value(data@.subrange(at as int, at + n)),
{
    let len: usize = data.len();
    let mut v: u64 = 0;
    let mut left: usize = n;
    proof {
        assert(data@.subrange(at + n, at + n) =~= Seq::empty());
    }
    while left > 0
        invariant
            left <= n <= 8,
            at + n <= len == data@.len(),
            v == le_value(data@.subrange(at + left, at + n)),
        decreases left,
    {
        left = left - 1;
        proof {
            let tail = data@.subrange(at + left + 1, at + n);
            let grown = data@.subrange(at + left, at + n);
            assert(grown.skip(1) =~= tail);
            lemma_le_value_bound(grown);
            lemma_pow256();
            if grown.len() < 8 {
                lemma_pow_strictly_increases(256, grown.len(), 8);
            }
        }
        v = v * 256 + data[at + left] as u64;
    }
    v
}

/// Appends `v` as four little-endian bytes.
pub fn write_u32(w: &mut Vec<u8>, v: u32)
    ensures
        final(w)@ == old(w)@ + le_bytes(v as nat, 4),
{
    push_le(w, v as u64, 4);
}

/// Appends `v` as eight little-endian bytes.
pub fn write_u64(w: &mut Vec<u8>, v: u64)
    ensures
        final(w)@ == old(w)@ + le_bytes(v as nat, 8),
{
    push_le(w, v, 8);
}

/// Appends `v` in two's complement as four little-endian bytes.
pub fn write_i32(w: &mut Vec<u8>, v: i32)
    ensures
        final(w)@ == old(w)@ + le_bytes(i32_bits(v), 4),
{
    let bits: u32 = v as u32;
    assert(v < 0 ==> bits == v + 0x1_0000_0000) by (bit_vector)
        requires
            bits == v as u32,
    ;
    assert(v >= 0 ==> bits == v) by (bit_vector)
        requires
            bits == v as u32,
    ;
    push_le(w, bits as u64, 4);
}

/// The `u32` in the four bytes of `data` that start at `at`.
pub fn u32_at(data: &[u8], at: usize) -> (v: u32)
    requires
        at + 4 <= data@.len(),
    ensures
        v == le_value(data@.subrange(at as int, at + 4)),
{
    proof {
        lemma_le_value_bound(data@.subrange(at as int, at + 4));
        lemma_pow256();
    }
    value_at(data, at, 4) as u32
}

/// The `u64` in the eight bytes of `data` that start at `at`.
pub fn u64_at(data: &[u8], at: usize) -> (v: u64)
    requires
        at + 8 <= data@.len(),
    ensures
        v == le_value(data@.subrange(at as int, at + 8)),
{
    value_at(data, at, 8)
}

/// The `i32` in the four bytes of `data` that start at `at`.
pub fn i32_at(data: &[u8], at: usize) -> (v: i32)
    requires
        at + 4 <= data@.len(),
    ensures
        v == i32_of_bits(le_value(data@.subrange(at as int, at + 4))),
{
    let bits: u32 = u32_at(data, at);
    let v: i32 = bits as i32;
    assert(bits < 0x8000_0000 ==> v == bits) by (bit_vector)
        requires
            v == bits as i32,
    ;
    assert(bits >= 0x8000_0000 ==> v == bits - 0x1_0000_0000) by (bit_vector)
        requires
            v == bits as i32,
    ;
    v
}

/// A position in a byte slice from which values are read in turn.
pub struct Cursor<'a> {
    data: &'a [u8],
    position: usize,
}

/// Whether `e` is the error of reading past the end.
pub open spec fn is_end_of_input(e: IoError) -> bool {
    e.says(IoErrorKind::UnexpectedEof, "failed to fill whole buffer"@)
}

impl<'a> Cursor<'a> {
    /// The position lies in the slice or at its end.
    #[verifier::type_invariant]
    spec fn in_range(self) -> bool {
        self.position <= self.data@.len()
    }

    /// The bytes that have not been read yet.
    pub closed spec fn rest(self) -> Seq<u8> {
        self.data@.skip(self.position as int)
    }

    /// A cursor at the start of `data`.
    pub fn new(data: &'a [u8]) -> (c: Cursor<'a>)
        ensures
            c.rest() == data@,
    {
        let c = Cursor { data, position: 0 };
        assert(c.rest() =~= data@);
        c
    }

    /// Reads exactly `n` bytes, or leaves the position where it is.
    pub fn read_exact(&mut self, n: usize) -> (bytes: Result<Vec<u8>, IoError>)
        ensures
            match bytes {
                Ok(b) => n <= old(self).rest().len() && b@ == old(self).rest().take(n as int)
                    && final(self).rest() == old(self).rest().skip(n as int),
                Err(e) => n > old(self).rest().len() && is_end_of_input(e) && final(self).rest()
                    == old(self).rest(),
            },
    {
        proof {
            use_type_invariant(&*self);
        }
        if self.data.len() - self.position < n {
            return Err(IoError::end_of_input());
        }
        let end: usize = self.position + n;
        let bytes = slice_to_vec(slice_subrange(self.data, self.position, end));
        assert(bytes@ =~= self.rest().take(n as int));
        assert(self.data@.skip(end as int) =~= self.rest().skip(n as int));
        self.position = end;
        Ok(bytes)
    }

    /// Reads everything that is left.
    pub fn read_to_end(&mut self) -> (bytes: Vec<u8>)
        ensures
            bytes@ == old(self).rest(),
            final(self).rest().len() == 0,
    {
        proof {
            use_type_invariant(&*self);
        }
        let end: usize = self.data.len();
        let bytes = slice_to_vec(slice_subrange(self.data, self.position, end));
        assert(bytes@ =~= self.rest());
        self.position = end;
        bytes
    }
}

/// Reads four little-endian bytes.
pub fn read_u32(r: &mut Cursor) -> (v: Result<u32, IoError>)
    ensures
        match v {
            Ok(v) => 4 <= old(r).rest().len() && v == le_value(old(r).rest().take(4))
                && final(r).rest() == old(r).rest().skip(4),
            Err(e) => 4 > old(r).rest().len() && is_end_of_input(e) && final(r).rest() == old(
                r,
            ).rest(),
        },
{
    match r.read_exact(4) {
        Ok(b) => {
            assert(b@.subrange(0, 4) =~= b@);
            Ok(u32_at(b.as_slice(), 0))
        },
        Err(e) => Err(e),
    }
}

/// Reads eight little-endian bytes.
pub fn read_u64(r: &mut Cursor) -> (v: Result<u64, IoError>)
    ensures
        match v {
            Ok(v) => 8 <= old(r).rest().len() && v == le_value(old(r).rest().take(8))
                && final(r).rest() == old(r).rest().skip(8),
            Err(e) => 8 > old(r).rest().len() && is_end_of_input(e) && final(r).rest() == old(
                r,
            ).rest(),
        },
{
    match r.read_exact(8) {
        Ok(b) => {
            assert(b@.subrange(0, 8) =~= b@);
            Ok(u64_at(b.as_slice(), 0))
        },
        Err(e) => Err(e),
    }
}

/// Reads four little-endian bytes in two's complement.
pub fn read_i32(r: &mut Cursor) -> (v: Result<i32, IoError>)
    ensures
        match v {
            Ok(v) => 4 <= old(r).rest().len() && v == i32_of_bits(
                le_value(old(r).rest().take(4)),
            ) && final(r).rest() == old(r).rest().skip(4),
            Err(e) => 4 > old(r).rest().len() && is_end_of_input(e) && final(r).rest() == old(
                r,
            ).rest(),
        },
{
    match r.read_exact(4) {
        Ok(b) => {
            assert(b@.subrange(0, 4) =~= b@);
            Ok(i32_at(b.as_slice(), 0))
        },
        Err(e) => Err(e),
    }
}

} // verus!
