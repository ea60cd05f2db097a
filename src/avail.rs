//! Avail elements: descriptors of reclaimable regions of the file.

use vstd::prelude::*;

use crate::ser::{
    lemma_off_round_trip, lemma_u32_round_trip, off_at, off_bytes, off_fits, off_width, roff_t,
    r32, u32_at, u32_bytes, w32, woff_t, DecodeError,
};

verus! {

/// A free region of the file: its size and where it starts.
#[derive(Debug, Clone, Copy, PartialEq, Eq, Structural)]
pub struct AvailElem {
    pub sz: u32,
    pub addr: u64,
}

/// Width in bytes of an encoded avail element.
pub open spec fn avail_width(is_lfs: bool) -> nat {
    4 + off_width(is_lfs)
}

/// Encoding of an avail element: its size, then its address.
pub open spec fn avail_bytes(is_lfs: bool, is_le: bool, a: AvailElem) -> Seq<u8> {
    u32_bytes(is_le, a.sz) + off_bytes(is_lfs, is_le, a.addr)
}

/// The avail element encoded at `pos` in `s`.
pub open spec fn avail_at(is_lfs: bool, is_le: bool, s: Seq<u8>, pos: int) -> AvailElem {
    AvailElem { sz: u32_at(is_le, s, pos), addr: off_at(is_lfs, is_le, s, pos + 4) }
}

/// Decoding the encoding of an avail element, wherever it stands, gives it back.
pub proof fn lemma_avail_round_trip(is_lfs: bool, is_le: bool, a: AvailElem, s: Seq<u8>, pos: int)
    requires
        off_fits(is_lfs, a.addr),
        0 <= pos,
        pos + avail_width(is_lfs) <= s.len(),
        s.subrange(pos, pos + avail_width(is_lfs)) == avail_bytes(is_lfs, is_le, a),
    ensures
        avail_at(is_lfs, is_le, s, pos) == a,
{
    let w = avail_width(is_lfs) as int;
    let e = avail_bytes(is_lfs, is_le, a);
    assert(s.subrange(pos, pos + 4) =~= e.subrange(0, 4));
    assert(e.subrange(0, 4) =~= u32_bytes(is_le, a.sz));
    lemma_u32_round_trip(is_le, a.sz, s, pos);
    assert(s.subrange(pos + 4, pos + w) =~= e.subrange(4, w));
    assert(e.subrange(4, w) =~= off_bytes(is_lfs, is_le, a.addr));
    lemma_off_round_trip(is_lfs, is_le, a.addr, s, pos + 4);
}

impl AvailElem {
    /// Decodes the avail element at `pos`.
    pub fn from_reader(is_lfs: bool, is_le: bool, rdr: &[u8], pos: usize) -> (r: Result<
        AvailElem,
        DecodeError,
    >)
        ensures
            match r {
                Ok(a) => pos + avail_width(is_lfs) <= rdr@.len() && a == avail_at(
                    is_lfs,
                    is_le,
                    rdr@,
                    pos as int,
                ),
                Err(e) => pos + avail_width(is_lfs) > rdr@.len() && e == DecodeError::Truncated,
            },
    {
        let ow: usize = if is_lfs {
            8
        } else {
            4
        };
        if pos > rdr.len() || rdr.len() - pos < 4 + ow {
            return Err(DecodeError::Truncated);
        }
        let sz = match r32(is_le, rdr, pos) {
            Ok(v) => v,
            Err(e) => return Err(e),
        };
        let addr = match roff_t(is_lfs, is_le, rdr, pos + 4) {
            Ok(v) => v,
            Err(e) => return Err(e),
        };
        Ok(AvailElem { sz, addr })
    }

    /// Encodes the element: its size, then its address as an offset field.
    pub fn serialize(&self, is_lfs: bool, is_le: bool) -> (r: Vec<u8>)
        ensures
            r@ == avail_bytes(is_lfs, is_le, *self),
    {
        let mut buf = w32(is_le, self.sz);
        let mut a = woff_t(is_lfs, is_le, self.addr);
        buf.append(&mut a);
        buf
    }
}

} // verus!
