//! Fixed-width integer and offset encoding in either byte order.

use byteorder::{BigEndian, ByteOrder, LittleEndian};
use vstd::prelude::*;

verus! {

/// Width of a file offset on disk.
#[derive(Debug, Clone, Copy, PartialEq, Eq, Structural)]
pub enum Alignment {
    Align32,
    Align64,
}

/// Byte order of every multi-byte integer on disk.
#[derive(Debug, Clone, Copy, PartialEq, Eq, Structural)]
pub enum Endian {
    Little,
    Big,
}

/// Why a structure could not be decoded from bytes.
#[derive(Debug, Clone, Copy, PartialEq, Eq, Structural)]
pub enum DecodeError {
    /// Fewer bytes were available than the structure needs.
    Truncated,
    /// A bucket's `count` exceeds the bucket size, or its `bits` exceed the
    /// directory depth.
    InvalidGeometry,
}

/// Little-endian value of four bytes.
pub open spec fn le32(b0: u8, b1: u8, b2: u8, b3: u8) -> u32 {
    (b0 as u32) | ((b1 as u32) << 8u32) | ((b2 as u32) << 16u32) | ((b3 as u32) << 24u32)
}

/// Little-endian value of eight bytes.
pub open spec fn le64(b: Seq<u8>) -> u64 {
    (b[0] as u64) | ((b[1] as u64) << 8u64) | ((b[2] as u64) << 16u64) | ((b[3] as u64) << 24u64)
        | ((b[4] as u64) << 32u64) | ((b[5] as u64) << 40u64) | ((b[6] as u64) << 48u64) | ((
    b[7] as u64) << 56u64)
}

/// The four little-endian bytes of `n`.
pub open spec fn le32_bytes(n: u32) -> Seq<u8> {
    seq![
        (n & 0xff) as u8,
        ((n >> 8u32) & 0xff) as u8,
        ((n >> 16u32) & 0xff) as u8,
        ((n >> 24u32) & 0xff) as u8,
    ]
}

/// The eight little-endian bytes of `n`.
pub open spec fn le64_bytes(n: u64) -> Seq<u8> {
    seq![
        (n & 0xff) as u8,
        ((n >> 8u64) & 0xff) as u8,
        ((n >> 16u64) & 0xff) as u8,
        ((n >> 24u64) & 0xff) as u8,
        ((n >> 32u64) & 0xff) as u8,
        ((n >> 40u64) & 0xff) as u8,
        ((n >> 48u64) & 0xff) as u8,
        ((n >> 56u64) & 0xff) as u8,
    ]
}

/// Encoding of a 32-bit integer in the chosen byte order.
pub open spec fn u32_bytes(is_le: bool, n: u32) -> Seq<u8> {
    if is_le {
        le32_bytes(n)
    } else {
        le32_bytes(n).reverse()
    }
}

/// Encoding of a 64-bit integer in the chosen byte order.
pub open spec fn u64_bytes(is_le: bool, n: u64) -> Seq<u8> {
    if is_le {
        le64_bytes(n)
    } else {
        le64_bytes(n).reverse()
    }
}

/// The 32-bit integer stored at `pos` in `s`, in the chosen byte order.
pub open spec fn u32_at(is_le: bool, s: Seq<u8>, pos: int) -> u32 {
    if is_le {
        le32(s[pos], s[pos + 1], s[pos + 2], s[pos + 3])
    } else {
        le32(s[pos + 3], s[pos + 2], s[pos + 1], s[pos])
    }
}

/// The 64-bit integer stored at `pos` in `s`, in the chosen byte order.
pub open spec fn u64_at(is_le: bool, s: Seq<u8>, pos: int) -> u64 {
    if is_le {
        le64(s.subrange(pos, pos + 8))
    } else {
        le64(s.subrange(pos, pos + 8).reverse())
    }
}

/// Width in bytes of an offset field: 8 in wide-offset mode, else 4.
pub open spec fn off_width(is_lfs: bool) -> nat {
    if is_lfs {
        8
    } else {
        4
    }
}

/// Encoding of an offset field; a narrow offset keeps the low 32 bits.
pub open spec fn off_bytes(is_lfs: bool, is_le: bool, v: u64) -> Seq<u8> {
    if is_lfs {
        u64_bytes(is_le, v)
    } else {
        u32_bytes(is_le, v as u32)
    }
}

/// The offset stored at `pos` in `s`; a narrow one is zero-extended.
pub open spec fn off_at(is_lfs: bool, is_le: bool, s: Seq<u8>, pos: int) -> u64 {
    if is_lfs {
        u64_at(is_le, s, pos)
    } else {
        u32_at(is_le, s, pos) as u64
    }
}

/// An offset value that its field can hold.
pub open spec fn off_fits(is_lfs: bool, v: u64) -> bool {
    is_lfs || v <= u32::MAX
}

/// The encodings have the widths of their fields.
pub proof fn lemma_bytes_len(is_lfs: bool, is_le: bool, n: u32, v: u64)
    ensures
        u32_bytes(is_le, n).len() == 4,
        off_bytes(is_lfs, is_le, v).len() == off_width(is_lfs),
{
}

/// Decoding the bytes of a 32-bit integer gives the integer back.
pub proof fn lemma_u32_round_trip(is_le: bool, n: u32, s: Seq<u8>, pos: int)
    requires
        0 <= pos,
        pos + 4 <= s.len(),
        s.subrange(pos, pos + 4) == u32_bytes(is_le, n),
    ensures
        u32_at(is_le, s, pos) == n,
{
    let b = le32_bytes(n);
    assert(s.subrange(pos, pos + 4)[0] == s[pos]);
    assert(s.subrange(pos, pos + 4)[1] == s[pos + 1]);
    assert(s.subrange(pos, pos + 4)[2] == s[pos + 2]);
    assert(s.subrange(pos, pos + 4)[3] == s[pos + 3]);
    assert(le32((n & 0xff) as u8, ((n >> 8u32) & 0xff) as u8, ((n >> 16u32) & 0xff) as u8, ((n
        >> 24u32) & 0xff) as u8) == n) by (bit_vector);
    if is_le {
        assert(u32_at(is_le, s, pos) == le32(b[0], b[1], b[2], b[3]));
    } else {
        assert(u32_at(is_le, s, pos) == le32(b[0], b[1], b[2], b[3]));
    }
}

/// Decoding the bytes of a 64-bit integer gives the integer back.
pub proof fn lemma_u64_round_trip(is_le: bool, n: u64, s: Seq<u8>, pos: int)
    requires
        0 <= pos,
        pos + 8 <= s.len(),
        s.subrange(pos, pos + 8) == u64_bytes(is_le, n),
    ensures
        u64_at(is_le, s, pos) == n,
{
    let b = le64_bytes(n);
    assert(((n & 0xff) as u8 as u64) | ((((n >> 8u64) & 0xff) as u8 as u64) << 8u64) | ((((n
        >> 16u64) & 0xff) as u8 as u64) << 16u64) | ((((n >> 24u64) & 0xff) as u8 as u64)
        << 24u64) | ((((n >> 32u64) & 0xff) as u8 as u64) << 32u64) | ((((n >> 40u64) & 0xff)
        as u8 as u64) << 40u64) | ((((n >> 48u64) & 0xff) as u8 as u64) << 48u64) | ((((n
        >> 56u64) & 0xff) as u8 as u64) << 56u64) == n) by (bit_vector);
    if is_le {
        assert(s.subrange(pos, pos + 8) =~= b);
    } else {
        assert(s.subrange(pos, pos + 8).reverse() =~= b);
    }
}

/// Decoding the bytes of an offset that fits its field gives it back.
pub proof fn lemma_off_round_trip(is_lfs: bool, is_le: bool, v: u64, s: Seq<u8>, pos: int)
    requires
        off_fits(is_lfs, v),
        0 <= pos,
        pos + off_width(is_lfs) <= s.len(),
        s.subrange(pos, pos + off_width(is_lfs)) == off_bytes(is_lfs, is_le, v),
    ensures
        off_at(is_lfs, is_le, s, pos) == v,
{
    if is_lfs {
        lemma_u64_round_trip(is_le, v, s, pos);
    } else {
        lemma_u32_round_trip(is_le, v as u32, s, pos);
    }
}

/// In a concatenation of chunks that all have width `w`, chunk `i` stands
/// at `i * w`.
pub proof fn lemma_fixed_chunks(chunks: Seq<Seq<u8>>, w: int)
    requires
        0 <= w,
        forall|i: int| 0 <= i < chunks.len() ==> (#[trigger] chunks[i]).len() == w,
    ensures
        chunks.flatten_alt().len() == chunks.len() * w,
        forall|i: int|
            0 <= i < chunks.len() ==> chunks.flatten_alt().subrange(i * w, i * w + w)
                == #[trigger] chunks[i],
    decreases chunks.len(),
{
    let n = chunks.len() as int;
    if n > 0 {
        let p = chunks.drop_last();
        lemma_fixed_chunks(p, w);
        let f = chunks.flatten_alt();
        assert(f == p.flatten_alt() + chunks.last());
        assert((n - 1) * w + w == n * w) by (nonlinear_arith);
        assert forall|i: int| 0 <= i < n implies f.subrange(i * w, i * w + w) == #[trigger] chunks[i] by {
            if i < n - 1 {
                assert(i * w + w <= (n - 1) * w) by (nonlinear_arith)
                    requires i < n - 1, 0 <= w;
                assert(0 <= i * w) by (nonlinear_arith)
                    requires 0 <= i, 0 <= w;
                assert(p[i] == chunks[i]);
                assert(f.subrange(i * w, i * w + w) =~= p.flatten_alt().subrange(i * w, i * w + w));
            } else {
                assert(f.subrange(i * w, i * w + w) =~= chunks.last());
            }
        }
    }
}

/// Relies on byteorder's `LittleEndian::read_u32`: the first four bytes, little-endian.
#[verifier::external_body]
fn read_le_u32(b: &[u8]) -> (r: u32)
    requires
        b@.len() >= 4,
    ensures
        r == u32_at(true, b@, 0),
{
    LittleEndian::read_u32(b)
}

/// Relies on byteorder's `BigEndian::read_u32`: the first four bytes, big-endian.
#[verifier::external_body]
fn read_be_u32(b: &[u8]) -> (r: u32)
    requires
        b@.len() >= 4,
    ensures
        r == u32_at(false, b@, 0),
{
    BigEndian::read_u32(b)
}

/// Relies on byteorder's `LittleEndian::read_u64`: the first eight bytes, little-endian.
#[verifier::external_body]
fn read_le_u64(b: &[u8]) -> (r: u64)
    requires
        b@.len() >= 8,
    ensures
        r == u64_at(true, b@, 0),
{
    LittleEndian::read_u64(b)
}

/// Relies on byteorder's `BigEndian::read_u64`: the first eight bytes, big-endian.
#[verifier::external_body]
fn read_be_u64(b: &[u8]) -> (r: u64)
    requires
        b@.len() >= 8,
    ensures
        r == u64_at(false, b@, 0),
{
    BigEndian::read_u64(b)
}

/// Relies on byteorder's `LittleEndian::write_u32`: fills four bytes, little-endian.
#[verifier::external_body]
fn le_u32_vec(n: u32) -> (r: Vec<u8>)
    ensures
        r@ == u32_bytes(true, n),
{
    let mut buf = vec![0u8; 4];
    LittleEndian::write_u32(&mut buf, n);
    buf
}

/// Relies on byteorder's `BigEndian::write_u32`: fills four bytes, big-endian.
#[verifier::external_body]
fn be_u32_vec(n: u32) -> (r: Vec<u8>)
    ensures
        r@ == u32_bytes(false, n),
{
    let mut buf = vec![0u8; 4];
    BigEndian::write_u32(&mut buf, n);
    buf
}

/// Relies on byteorder's `LittleEndian::write_u64`: fills eight bytes, little-endian.
#[verifier::external_body]
fn le_u64_vec(n: u64) -> (r: Vec<u8>)
    ensures
        r@ == u64_bytes(true, n),
{
    let mut buf = vec![0u8; 8];
    LittleEndian::write_u64(&mut buf, n);
    buf
}

/// Relies on byteorder's `BigEndian::write_u64`: fills eight bytes, big-endian.
#[verifier::external_body]
fn be_u64_vec(n: u64) -> (r: Vec<u8>)
    ensures
        r@ == u64_bytes(false, n),
{
    let mut buf = vec![0u8; 8];
    BigEndian::write_u64(&mut buf, n);
    buf
}

/// Encodes a 32-bit integer in the chosen byte order.
pub fn w32(is_le: bool, v: u32) -> (r: Vec<u8>)
    ensures
        r@ == u32_bytes(is_le, v),
{
    if is_le {
        le_u32_vec(v)
    } else {
        be_u32_vec(v)
    }
}

/// Encodes an offset: eight bytes in wide-offset mode, else its low four bytes.
pub fn woff_t(is_lfs: bool, is_le: bool, v: u64) -> (r: Vec<u8>)
    ensures
        r@ == off_bytes(is_lfs, is_le, v),
{
    if is_lfs {
        if is_le {
            le_u64_vec(v)
        } else {
            be_u64_vec(v)
        }
    } else {
        w32(is_le, v as u32)
    }
}

/// Reads the 32-bit integer at `pos`; fewer than four bytes there is a
/// truncated input.
pub fn r32(is_le: bool, rdr: &[u8], pos: usize) -> (r: Result<u32, DecodeError>)
    ensures
        match r {
            Ok(v) => pos + 4 <= rdr@.len() && v == u32_at(is_le, rdr@, pos as int),
            Err(e) => pos + 4 > rdr@.len() && e == DecodeError::Truncated,
        },
{
    if pos > rdr.len() || rdr.len() - pos < 4 {
        return Err(DecodeError::Truncated);
    }
    let b = &rdr[pos..rdr.len()];
    if is_le {
        Ok(read_le_u32(b))
    } else {
        Ok(read_be_u32(b))
    }
}

/// Reads the offset at `pos`, zero-extending a narrow one; fewer bytes there
/// than the offset's width is a truncated input.
pub fn roff_t(is_lfs: bool, is_le: bool, rdr: &[u8], pos: usize) -> (r: Result<u64, DecodeError>)
    ensures
        match r {
            Ok(v) => pos + off_width(is_lfs) <= rdr@.len() && v == off_at(
                is_lfs,
                is_le,
                rdr@,
                pos as int,
            ),
            Err(e) => pos + off_width(is_lfs) > rdr@.len() && e == DecodeError::Truncated,
        },
{
    if is_lfs {
        if pos > rdr.len() || rdr.len() - pos < 8 {
            return Err(DecodeError::Truncated);
        }
        let b = &rdr[pos..rdr.len()];
        let v = if is_le {
            read_le_u64(b)
        } else {
            read_be_u64(b)
        };
        assert(b@.subrange(0, 8) =~= rdr@.subrange(pos as int, pos + 8));
        Ok(v)
    } else {
        match r32(is_le, rdr, pos) {
            Ok(v) => Ok(v as u64),
            Err(e) => Err(e),
        }
    }
}

} // verus!
