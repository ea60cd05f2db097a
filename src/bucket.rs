//! Hash buckets, their elements, and the cache of decoded buckets.

use vstd::prelude::*;

use crate::avail::{avail_at, avail_bytes, avail_width, lemma_avail_round_trip, AvailElem};
use crate::ser::{
    lemma_bytes_len, lemma_fixed_chunks, lemma_off_round_trip, lemma_u32_round_trip, off_at,
    off_bytes, off_fits, off_width, r32, roff_t, u32_at, u32_bytes, w32, woff_t, DecodeError,
};
use crate::{Header, BUCKET_AVAIL, KEY_SMALL};
use std::collections::HashMap;
use vstd::std_specs::iter::IteratorSpec;

verus! {

/// One slot of a bucket's hash table.
#[derive(Debug, Clone, PartialEq, Eq)]
pub struct BucketElement {
    pub hash: u32,
    pub key_start: [u8; KEY_SMALL],
    pub data_ofs: u64,
    pub key_size: u32,
    pub data_size: u32,
}

/// The mathematical value of a bucket element.
pub struct ElementView {
    pub hash: u32,
    pub key_start: Seq<u8>,
    pub data_ofs: u64,
    pub key_size: u32,
    pub data_size: u32,
}

impl View for BucketElement {
    type V = ElementView;

    open spec fn view(&self) -> ElementView {
        ElementView {
            hash: self.hash,
            key_start: self.key_start@,
            data_ofs: self.data_ofs,
            key_size: self.key_size,
            data_size: self.data_size,
        }
    }
}

/// An element that its encoding can hold: four key bytes, and an offset that
/// fits the offset field.
pub open spec fn elem_valid(is_lfs: bool, e: ElementView) -> bool {
    e.key_start.len() == KEY_SMALL && off_fits(is_lfs, e.data_ofs)
}

/// Width in bytes of an encoded bucket element: 20, or 24 in wide-offset mode.
pub open spec fn elem_width(is_lfs: bool) -> nat {
    16 + off_width(is_lfs)
}

/// Encoding of a bucket element: hash, key bytes, data offset, key size, data size.
pub open spec fn elem_bytes(is_lfs: bool, is_le: bool, e: ElementView) -> Seq<u8> {
    u32_bytes(is_le, e.hash) + e.key_start + off_bytes(is_lfs, is_le, e.data_ofs) + u32_bytes(
        is_le,
        e.key_size,
    ) + u32_bytes(is_le, e.data_size)
}

/// The bucket element encoded at `pos` in `s`.
pub open spec fn elem_at(is_lfs: bool, is_le: bool, s: Seq<u8>, pos: int) -> ElementView {
    let ow = off_width(is_lfs) as int;
    ElementView {
        hash: u32_at(is_le, s, pos),
        key_start: s.subrange(pos + 4, pos + 8),
        data_ofs: off_at(is_lfs, is_le, s, pos + 8),
        key_size: u32_at(is_le, s, pos + 8 + ow),
        data_size: u32_at(is_le, s, pos + 12 + ow),
    }
}

/// Decoding the encoding of an element, wherever it stands, gives it back.
proof fn lemma_elem_at_encoding(is_lfs: bool, is_le: bool, e: ElementView, s: Seq<u8>, pos: int)
    requires
        elem_valid(is_lfs, e),
        0 <= pos,
        pos + elem_width(is_lfs) <= s.len(),
        s.subrange(pos, pos + elem_width(is_lfs)) == elem_bytes(is_lfs, is_le, e),
    ensures
        elem_at(is_lfs, is_le, s, pos) == e,
{
    let ow = off_width(is_lfs) as int;
    let b = elem_bytes(is_lfs, is_le, e);
    assert(s.subrange(pos, pos + 4) =~= b.subrange(0, 4));
    assert(b.subrange(0, 4) =~= u32_bytes(is_le, e.hash));
    lemma_u32_round_trip(is_le, e.hash, s, pos);
    assert(s.subrange(pos + 4, pos + 8) =~= b.subrange(4, 8));
    assert(b.subrange(4, 8) =~= e.key_start);
    assert(s.subrange(pos + 8, pos + 8 + ow) =~= b.subrange(8, 8 + ow));
    assert(b.subrange(8, 8 + ow) =~= off_bytes(is_lfs, is_le, e.data_ofs));
    lemma_off_round_trip(is_lfs, is_le, e.data_ofs, s, pos + 8);
    assert(s.subrange(pos + 8 + ow, pos + 12 + ow) =~= b.subrange(8 + ow, 12 + ow));
    assert(b.subrange(8 + ow, 12 + ow) =~= u32_bytes(is_le, e.key_size));
    lemma_u32_round_trip(is_le, e.key_size, s, pos + 8 + ow);
    assert(s.subrange(pos + 12 + ow, pos + 16 + ow) =~= b.subrange(12 + ow, 16 + ow));
    assert(b.subrange(12 + ow, 16 + ow) =~= u32_bytes(is_le, e.data_size));
    lemma_u32_round_trip(is_le, e.data_size, s, pos + 12 + ow);
}

/// Decoding an encoded bucket element gives the element back, for either
/// offset width and either byte order.
pub proof fn lemma_element_round_trip(is_lfs: bool, is_le: bool, e: ElementView)
    requires
        elem_valid(is_lfs, e),
    ensures
        elem_bytes(is_lfs, is_le, e).len() == elem_width(is_lfs),
        elem_at(is_lfs, is_le, elem_bytes(is_lfs, is_le, e), 0) == e,
{
    let b = elem_bytes(is_lfs, is_le, e);
    lemma_bytes_len(is_lfs, is_le, e.hash, e.data_ofs);
    lemma_bytes_len(is_lfs, is_le, e.key_size, e.data_ofs);
    lemma_bytes_len(is_lfs, is_le, e.data_size, e.data_ofs);
    assert(b.subrange(0, elem_width(is_lfs) as int) =~= b);
    lemma_elem_at_encoding(is_lfs, is_le, e, b, 0);
}

impl BucketElement {
    /// Decodes the element at `pos`.
    fn decode_at(is_lfs: bool, is_le: bool, rdr: &[u8], pos: usize) -> (r: Result<
        BucketElement,
        DecodeError,
    >)
        ensures
            match r {
                Ok(e) => pos + elem_width(is_lfs) <= rdr@.len() && e@ == elem_at(
                    is_lfs,
                    is_le,
                    rdr@,
                    pos as int,
                ),
                Err(err) => pos + elem_width(is_lfs) > rdr@.len() && err == DecodeError::Truncated,
            },
    {
        let ow: usize = if is_lfs {
            8
        } else {
            4
        };
        if pos > rdr.len() || rdr.len() - pos < 16 + ow {
            return Err(DecodeError::Truncated);
        }
        let hash = match r32(is_le, rdr, pos) {
            Ok(v) => v,
            Err(e) => return Err(e),
        };
        let key_start = [rdr[pos + 4], rdr[pos + 5], rdr[pos + 6], rdr[pos + 7]];
        assert(key_start@ =~= rdr@.subrange(pos + 4, pos + 8));
        let data_ofs = match roff_t(is_lfs, is_le, rdr, pos + 8) {
            Ok(v) => v,
            Err(e) => return Err(e),
        };
        let key_size = match r32(is_le, rdr, pos + 8 + ow) {
            Ok(v) => v,
            Err(e) => return Err(e),
        };
        let data_size = match r32(is_le, rdr, pos + 12 + ow) {
            Ok(v) => v,
            Err(e) => return Err(e),
        };
        Ok(BucketElement { hash, key_start, data_ofs, key_size, data_size })
    }

    /// Decodes an element from the start of `rdr`.
    pub fn from_reader(is_lfs: bool, is_le: bool, rdr: &[u8]) -> (r: Result<
        BucketElement,
        DecodeError,
    >)
        ensures
            match r {
                Ok(e) => rdr@.len() >= elem_width(is_lfs) && e@ == elem_at(is_lfs, is_le, rdr@, 0),
                Err(err) => rdr@.len() < elem_width(is_lfs) && err == DecodeError::Truncated,
            },
    {
        BucketElement::decode_at(is_lfs, is_le, rdr, 0)
    }

    /// Encodes the element; only the integer fields follow the byte order.
    pub fn serialize(&self, is_lfs: bool, is_le: bool) -> (r: Vec<u8>)
        ensures
            r@ == elem_bytes(is_lfs, is_le, self@),
    {
        let mut buf = w32(is_le, self.hash);
        buf.push(self.key_start[0]);
        buf.push(self.key_start[1]);
        buf.push(self.key_start[2]);
        buf.push(self.key_start[3]);
        assert(buf@.subrange(4, 8) =~= self.key_start@);
        buf.append(&mut woff_t(is_lfs, is_le, self.data_ofs));
        buf.append(&mut w32(is_le, self.key_size));
        buf.append(&mut w32(is_le, self.data_size));
        assert(buf@ =~= elem_bytes(is_lfs, is_le, self@));
        buf
    }
}


/// The on-disk hash bucket: an avail sub-list, then a table of elements.
#[derive(Debug, Clone, PartialEq, Eq)]
pub struct Bucket {
    /// How many of the avail elements are in use.
    pub av_count: u32,
    /// The embedded avail elements; always `BUCKET_AVAIL` of them.
    pub avail: Vec<AvailElem>,
    /// Hash-bit depth of this bucket.
    pub bits: u32,
    /// Number of occupied slots in `tab`.
    pub count: u32,
    /// The element slots, occupied or not.
    pub tab: Vec<BucketElement>,
}

/// The mathematical value of a bucket.
pub struct BucketView {
    pub av_count: u32,
    pub avail: Seq<AvailElem>,
    pub bits: u32,
    pub count: u32,
    pub tab: Seq<ElementView>,
}

impl View for Bucket {
    type V = BucketView;

    open spec fn view(&self) -> BucketView {
        BucketView {
            av_count: self.av_count,
            avail: self.avail@,
            bits: self.bits,
            count: self.count,
            tab: self.tab@.map_values(|e: BucketElement| e@),
        }
    }
}

/// Where the avail elements start: after `av_count`, and after the padding
/// word in wide-offset mode.
pub open spec fn avail_start(is_lfs: bool) -> nat {
    if is_lfs {
        8
    } else {
        4
    }
}

/// Where the `bits` field stands; `count` follows it.
pub open spec fn bits_pos(is_lfs: bool) -> nat {
    avail_start(is_lfs) + (BUCKET_AVAIL as nat) * avail_width(is_lfs)
}

/// Length of the part of a bucket before its element table.
pub open spec fn bucket_hdr_len(is_lfs: bool) -> nat {
    bits_pos(is_lfs) + 8
}

/// Length of an encoded bucket with `elems` slots.
pub open spec fn bucket_len(is_lfs: bool, elems: nat) -> nat {
    bucket_hdr_len(is_lfs) + elems * elem_width(is_lfs)
}

/// The encodings of a sequence of avail elements, one after another.
pub open spec fn avails_bytes(is_lfs: bool, is_le: bool, s: Seq<AvailElem>) -> Seq<u8> {
    s.map_values(|a: AvailElem| avail_bytes(is_lfs, is_le, a)).flatten_alt()
}

/// The encodings of a sequence of elements, one after another.
pub open spec fn elems_bytes(is_lfs: bool, is_le: bool, s: Seq<ElementView>) -> Seq<u8> {
    s.map_values(|e: ElementView| elem_bytes(is_lfs, is_le, e)).flatten_alt()
}

/// The padding word after `av_count`: present only in wide-offset mode.
pub open spec fn pad_bytes(is_lfs: bool, is_le: bool) -> Seq<u8> {
    if is_lfs {
        u32_bytes(is_le, 0)
    } else {
        Seq::empty()
    }
}

/// Encoding of a bucket.
pub open spec fn bucket_bytes(is_lfs: bool, is_le: bool, b: BucketView) -> Seq<u8> {
    u32_bytes(is_le, b.av_count) + pad_bytes(is_lfs, is_le) + avails_bytes(is_lfs, is_le, b.avail)
        + u32_bytes(is_le, b.bits) + u32_bytes(is_le, b.count) + elems_bytes(is_lfs, is_le, b.tab)
}

/// The `count` and `bits` fields encoded in `s` agree with the geometry.
pub open spec fn geometry_ok(is_lfs: bool, is_le: bool, elems: u32, dir_bits: u32, s: Seq<u8>) -> bool {
    &&& u32_at(is_le, s, (bits_pos(is_lfs) + 4) as int) <= elems
    &&& u32_at(is_le, s, bits_pos(is_lfs) as int) <= dir_bits
}

/// The bucket with `elems` slots encoded at the start of `s`.
pub open spec fn bucket_at(is_lfs: bool, is_le: bool, elems: u32, s: Seq<u8>) -> BucketView {
    BucketView {
        av_count: u32_at(is_le, s, 0),
        avail: Seq::new(
            BUCKET_AVAIL as nat,
            |i: int| avail_at(is_lfs, is_le, s, avail_start(is_lfs) + i * avail_width(is_lfs)),
        ),
        bits: u32_at(is_le, s, bits_pos(is_lfs) as int),
        count: u32_at(is_le, s, (bits_pos(is_lfs) + 4) as int),
        tab: Seq::new(
            elems as nat,
            |i: int| elem_at(is_lfs, is_le, s, bucket_hdr_len(is_lfs) + i * elem_width(is_lfs)),
        ),
    }
}

/// A bucket that fits the geometry and whose fields its encoding can hold.
pub open spec fn bucket_valid(is_lfs: bool, elems: u32, dir_bits: u32, b: BucketView) -> bool {
    &&& b.avail.len() == BUCKET_AVAIL
    &&& b.tab.len() == elems
    &&& b.count <= elems
    &&& b.bits <= dir_bits
    &&& forall|i: int| 0 <= i < b.avail.len() ==> off_fits(is_lfs, (#[trigger] b.avail[i]).addr)
    &&& forall|i: int| 0 <= i < b.tab.len() ==> elem_valid(is_lfs, #[trigger] b.tab[i])
}

/// Decoding an encoded bucket gives the bucket back, when the bucket fits the
/// geometry (`count <= bucket_elems`, `bits <= dir_bits`, six avail elements,
/// `bucket_elems` slots) and its offsets fit their fields. The encoding also
/// passes the geometry check of the decoder.
pub proof fn lemma_bucket_round_trip(
    is_lfs: bool,
    is_le: bool,
    elems: u32,
    dir_bits: u32,
    b: BucketView,
)
    requires
        bucket_valid(is_lfs, elems, dir_bits, b),
    ensures
        bucket_bytes(is_lfs, is_le, b).len() == bucket_len(is_lfs, elems as nat),
        geometry_ok(is_lfs, is_le, elems, dir_bits, bucket_bytes(is_lfs, is_le, b)),
        bucket_at(is_lfs, is_le, elems, bucket_bytes(is_lfs, is_le, b)) == b,
{
    let s = bucket_bytes(is_lfs, is_le, b);
    let aw = avail_width(is_lfs) as int;
    let ew = elem_width(is_lfs) as int;
    let start = avail_start(is_lfs) as int;
    let bp = bits_pos(is_lfs) as int;
    let hdr = bucket_hdr_len(is_lfs) as int;
    let fa = |a: AvailElem| avail_bytes(is_lfs, is_le, a);
    let fe = |e: ElementView| elem_bytes(is_lfs, is_le, e);
    let ac = b.avail.map_values(fa);
    let tc = b.tab.map_values(fe);
    let a = avails_bytes(is_lfs, is_le, b.avail);
    let t = elems_bytes(is_lfs, is_le, b.tab);
    lemma_bytes_len(is_lfs, is_le, 0, 0);
    assert forall|i: int| 0 <= i < ac.len() implies (#[trigger] ac[i]).len() == aw by {
        lemma_bytes_len(is_lfs, is_le, b.avail[i].sz, b.avail[i].addr);
    }
    assert forall|i: int| 0 <= i < tc.len() implies (#[trigger] tc[i]).len() == ew by {
        lemma_element_round_trip(is_lfs, is_le, b.tab[i]);
    }
    lemma_fixed_chunks(ac, aw);
    lemma_fixed_chunks(tc, ew);
    lemma_bytes_len(is_lfs, is_le, b.av_count, 0);
    lemma_bytes_len(is_lfs, is_le, b.bits, 0);
    lemma_bytes_len(is_lfs, is_le, b.count, 0);
    let p = u32_bytes(is_le, b.av_count) + pad_bytes(is_lfs, is_le);
    assert(p.len() == start);
    assert(s == p + a + u32_bytes(is_le, b.bits) + u32_bytes(is_le, b.count) + t);
    assert(s.len() == hdr + elems * ew);
    // fixed fields
    assert(s.subrange(0, 4) =~= u32_bytes(is_le, b.av_count));
    lemma_u32_round_trip(is_le, b.av_count, s, 0);
    assert(s.subrange(bp, bp + 4) =~= u32_bytes(is_le, b.bits));
    lemma_u32_round_trip(is_le, b.bits, s, bp);
    assert(s.subrange(bp + 4, bp + 8) =~= u32_bytes(is_le, b.count));
    lemma_u32_round_trip(is_le, b.count, s, bp + 4);
    // avail elements
    assert forall|i: int| 0 <= i < BUCKET_AVAIL implies avail_at(
        is_lfs,
        is_le,
        s,
        start + i * aw,
    ) == #[trigger] b.avail[i] by {
        assert(0 <= i * aw && i * aw + aw <= 6 * aw) by (nonlinear_arith)
            requires
                0 <= i < 6,
                0 <= aw,
        ;
        assert(s.subrange(start + i * aw, start + i * aw + aw) =~= a.subrange(i * aw, i * aw + aw));
        assert(ac[i] == avail_bytes(is_lfs, is_le, b.avail[i]));
        lemma_avail_round_trip(is_lfs, is_le, b.avail[i], s, start + i * aw);
    }
    // element table
    assert forall|i: int| 0 <= i < elems implies elem_at(is_lfs, is_le, s, hdr + i * ew)
        == #[trigger] b.tab[i] by {
        assert(0 <= i * ew && i * ew + ew <= elems * ew) by (nonlinear_arith)
            requires
                0 <= i < elems,
                0 <= ew,
        ;
        assert(s.subrange(hdr + i * ew, hdr + i * ew + ew) =~= t.subrange(i * ew, i * ew + ew));
        assert(tc[i] == elem_bytes(is_lfs, is_le, b.tab[i]));
        lemma_elem_at_encoding(is_lfs, is_le, b.tab[i], s, hdr + i * ew);
    }
    assert(bucket_at(is_lfs, is_le, elems, s).avail =~= b.avail);
    assert(bucket_at(is_lfs, is_le, elems, s).tab =~= b.tab);
}

impl Bucket {
    /// Decodes a bucket of `header.bucket_elems` slots from the start of `rdr`.
    /// A `count` above the bucket size, or `bits` above the directory depth,
    /// is refused before the table is read.
    pub fn from_reader(header: &Header, rdr: &[u8]) -> (r: Result<Bucket, DecodeError>)
        ensures
            match r {
                Ok(b) => {
                    &&& rdr@.len() >= bucket_len(header.lfs(), header.bucket_elems as nat)
                    &&& geometry_ok(
                        header.lfs(),
                        header.le(),
                        header.bucket_elems,
                        header.dir_bits,
                        rdr@,
                    )
                    &&& b@ == bucket_at(header.lfs(), header.le(), header.bucket_elems, rdr@)
                },
                Err(DecodeError::Truncated) => rdr@.len() < bucket_hdr_len(header.lfs()) || (
                geometry_ok(header.lfs(), header.le(), header.bucket_elems, header.dir_bits, rdr@)
                    && rdr@.len() < bucket_len(header.lfs(), header.bucket_elems as nat)),
                Err(DecodeError::InvalidGeometry) => rdr@.len() >= bucket_hdr_len(header.lfs())
                    && !geometry_ok(
                    header.lfs(),
                    header.le(),
                    header.bucket_elems,
                    header.dir_bits,
                    rdr@,
                ),
            },
    {
        let is_lfs = header.is_lfs();
        let is_le = header.is_le();
        let len = rdr.len();
        let ow: usize = if is_lfs {
            8
        } else {
            4
        };
        let aw: usize = 4 + ow;
        let ew: usize = 16 + ow;
        let start: usize = if is_lfs {
            8
        } else {
            4
        };
        let hdr: usize = start + 6 * aw + 8;
        if len < hdr {
            return Err(DecodeError::Truncated);
        }
        // avail section
        let av_count = match r32(is_le, rdr, 0) {
            Ok(v) => v,
            Err(e) => return Err(e),
        };
        let mut avail: Vec<AvailElem> = Vec::new();
        let mut pos: usize = start;
        for idx in 0..BUCKET_AVAIL
            invariant
                avail@.len() == idx,
                pos == start + idx * aw,
                hdr <= len == rdr@.len(),
                hdr == start + 6 * aw + 8,
                aw == avail_width(is_lfs),
                start == avail_start(is_lfs),
                forall|k: int|
                    0 <= k < idx ==> #[trigger] avail@[k] == avail_at(
                        is_lfs,
                        is_le,
                        rdr@,
                        start + k * aw,
                    ),
        {
            assert(pos + aw <= hdr) by (nonlinear_arith)
                requires
                    pos == start + idx * aw,
                    idx < 6,
                    hdr == start + 6 * aw + 8,
            ;
            match AvailElem::from_reader(is_lfs, is_le, rdr, pos) {
                Ok(a) => avail.push(a),
                Err(e) => return Err(e),
            }
            assert(pos + aw == start + (idx + 1) * aw) by (nonlinear_arith)
                requires
                    pos == start + idx * aw,
            ;
            pos = pos + aw;
        }
        // misc section
        assert(pos == bits_pos(is_lfs));
        let bits = match r32(is_le, rdr, pos) {
            Ok(v) => v,
            Err(e) => return Err(e),
        };
        let count = match r32(is_le, rdr, pos + 4) {
            Ok(v) => v,
            Err(e) => return Err(e),
        };
        if !(count <= header.bucket_elems && bits <= header.dir_bits) {
            return Err(DecodeError::InvalidGeometry);
        }
        // bucket elements section
        let mut tab: Vec<BucketElement> = Vec::new();
        pos = hdr;
        for idx in 0..header.bucket_elems
            invariant
                tab@.len() == idx,
                pos == hdr + idx * ew,
                pos <= len == rdr@.len(),
                ew == elem_width(is_lfs),
                hdr == bucket_hdr_len(is_lfs),
                is_lfs == header.lfs(),
                is_le == header.le(),
                geometry_ok(is_lfs, is_le, header.bucket_elems, header.dir_bits, rdr@),
                forall|k: int|
                    0 <= k < idx ==> (#[trigger] tab@[k])@ == elem_at(
                        is_lfs,
                        is_le,
                        rdr@,
                        hdr + k * ew,
                    ),
        {
            if len - pos < ew {
                assert(hdr + (idx + 1) * ew <= hdr + header.bucket_elems * ew) by (nonlinear_arith)
                    requires
                        idx < header.bucket_elems,
                        0 <= ew,
                ;
                assert(len < bucket_len(is_lfs, header.bucket_elems as nat)) by (nonlinear_arith)
                    requires
                        len < pos + ew,
                        pos == hdr + idx * ew,
                        hdr + (idx + 1) * ew <= hdr + header.bucket_elems * ew,
                        bucket_len(is_lfs, header.bucket_elems as nat) == hdr
                            + header.bucket_elems * ew,
                ;
                return Err(DecodeError::Truncated);
            }
            match BucketElement::decode_at(is_lfs, is_le, rdr, pos) {
                Ok(e) => tab.push(e),
                Err(e) => return Err(e),
            }
            assert(pos + ew == hdr + (idx + 1) * ew) by (nonlinear_arith)
                requires
                    pos == hdr + idx * ew,
            ;
            pos = pos + ew;
        }
        let b = Bucket { av_count, avail, bits, count, tab };
        assert(b@.avail =~= bucket_at(is_lfs, is_le, header.bucket_elems, rdr@).avail);
        assert(b@.tab =~= bucket_at(is_lfs, is_le, header.bucket_elems, rdr@).tab);
        Ok(b)
    }

    /// Encodes the bucket: `av_count`, the padding word in wide-offset mode,
    /// the avail elements, `bits`, `count`, then every slot of the table.
    pub fn serialize(&self, is_lfs: bool, is_le: bool) -> (r: Vec<u8>)
        requires
            self.avail@.len() == BUCKET_AVAIL,
        ensures
            r@ == bucket_bytes(is_lfs, is_le, self@),
    {
        let mut buf = w32(is_le, self.av_count);
        if is_lfs {
            let padding: u32 = 0;
            buf.append(&mut w32(is_le, padding));
        }
        assert(buf@ =~= u32_bytes(is_le, self.av_count) + pad_bytes(is_lfs, is_le));
        let ghost head = buf@;
        let mut i: usize = 0;
        while i < self.avail.len()
            invariant
                i <= self.avail@.len(),
                buf@ == head + avails_bytes(is_lfs, is_le, self.avail@.take(i as int)),
            decreases self.avail@.len() - i,
        {
            let ghost f = |a: AvailElem| avail_bytes(is_lfs, is_le, a);
            assert(self.avail@.take(i + 1).map_values(f).drop_last() =~= self.avail@.take(
                i as int,
            ).map_values(f));
            buf.append(&mut self.avail[i].serialize(is_lfs, is_le));
            i = i + 1;
        }
        assert(self.avail@.take(i as int) =~= self.avail@);
        buf.append(&mut w32(is_le, self.bits));
        buf.append(&mut w32(is_le, self.count));
        let ghost mid = buf@;
        let mut j: usize = 0;
        while j < self.tab.len()
            invariant
                j <= self.tab@.len(),
                buf@ == mid + elems_bytes(
                    is_lfs,
                    is_le,
                    self.tab@.map_values(|e: BucketElement| e@).take(j as int),
                ),
            decreases self.tab@.len() - j,
        {
            let ghost t = self.tab@.map_values(|e: BucketElement| e@);
            let ghost f = |e: ElementView| elem_bytes(is_lfs, is_le, e);
            assert(t.take(j + 1).map_values(f).drop_last() =~= t.take(j as int).map_values(f));
            buf.append(&mut self.tab[j].serialize(is_lfs, is_le));
            j = j + 1;
        }
        assert(self.tab@.map_values(|e: BucketElement| e@).take(j as int) =~= self.tab@.map_values(
            |e: BucketElement| e@,
        ));
        buf
    }
}

/// Cache of decoded buckets, keyed by file offset, with the set of offsets
/// whose bucket has changed since the last flush.
#[derive(Debug)]
pub struct BucketCache {
    pub bucket_map: HashMap<u64, Bucket>,
    pub dirty: HashMap<u64, bool>,
}

/// Strictly ascending.
pub open spec fn ascending(s: Seq<u64>) -> bool {
    forall|i: int, j: int| 0 <= i < j < s.len() ==> s[i] < s[j]
}

/// Relies on std's `slice::sort`: the result is ascending and holds the
/// same items, each as often.
#[verifier::external_body]
fn sort_offsets(v: &mut Vec<u64>)
    ensures
        final(v)@.to_multiset() == old(v)@.to_multiset(),
        forall|i: int, j: int| 0 <= i <= j < final(v)@.len() ==> final(v)@[i] <= final(v)@[j],
{
    v.sort();
}

impl BucketCache {
    /// An empty cache.
    pub fn new() -> (r: BucketCache)
        ensures
            r.bucket_map@ == Map::<u64, Bucket>::empty(),
            r.dirty@ == Map::<u64, bool>::empty(),
    {
        BucketCache { bucket_map: HashMap::new(), dirty: HashMap::new() }
    }

    /// Marks the bucket at `bucket_ofs` as changed; the cached buckets stay.
    pub fn dirty(&mut self, bucket_ofs: u64)
        ensures
            final(self).dirty@ == old(self).dirty@.insert(bucket_ofs, true),
            final(self).bucket_map@ == old(self).bucket_map@,
    {
        self.dirty.insert(bucket_ofs, true);
    }

    /// The offsets marked as changed, ascending, each once.
    pub fn dirty_list(&mut self) -> (r: Vec<u64>)
        ensures
            *final(self) == *old(self),
            ascending(r@),
            forall|x: u64| r@.contains(x) <==> old(self).dirty@.contains_key(x),
    {
        broadcast use vstd::std_specs::hash::group_hash_axioms;

        let mut dl: Vec<u64> = Vec::new();
        let ghost keys = self.dirty.keys().remaining().unref();
        for ofs in it: self.dirty.keys()
            invariant
                keys == it.seq().unref(),
                dl@ == keys.take(it.index() as int),
        {
            assert(keys.take(it.index() + 1) =~= keys.take(it.index() as int).push(*ofs));
            dl.push(*ofs);
        }
        assert(dl@ =~= keys);
        proof {
            dl@.lemma_multiset_has_no_duplicates();
        }
        let ghost before = dl@;
        sort_offsets(&mut dl);
        proof {
            dl@.lemma_multiset_has_no_duplicates_conv();
            assert forall|x: u64| dl@.contains(x) <==> before.contains(x) by {
                broadcast use vstd::seq_lib::to_multiset_contains;

                assert(dl@.to_multiset().count(x) == before.to_multiset().count(x));
            }
            assert forall|i: int, j: int| 0 <= i < j < dl@.len() implies dl@[i] < dl@[j] by {
                assert(dl@[i] <= dl@[j]);
                assert(dl@[i] != dl@[j]);
            }
        }
        dl
    }

    /// Forgets which buckets changed; the cached buckets stay.
    pub fn clear_dirty(&mut self)
        ensures
            final(self).dirty@ == Map::<u64, bool>::empty(),
            final(self).bucket_map@ == old(self).bucket_map@,
    {
        self.dirty.clear();
    }

    /// Whether a bucket is cached at `bucket_ofs`.
    pub fn contains(&self, bucket_ofs: u64) -> (r: bool)
        ensures
            r == self.bucket_map@.contains_key(bucket_ofs),
    {
        broadcast use vstd::std_specs::hash::group_hash_axioms;

        self.bucket_map.contains_key(&bucket_ofs)
    }

    /// Caches `bucket` at `bucket_ofs` as read from disk, leaving it unmarked.
    pub fn insert(&mut self, bucket_ofs: u64, bucket: Bucket)
        ensures
            final(self).bucket_map@ == old(self).bucket_map@.insert(bucket_ofs, bucket),
            final(self).dirty@ == old(self).dirty@,
    {
        self.bucket_map.insert(bucket_ofs, bucket);
    }

    /// Caches `bucket` at `bucket_ofs` and marks it as changed.
    pub fn update(&mut self, bucket_ofs: u64, bucket: Bucket)
        ensures
            final(self).bucket_map@ == old(self).bucket_map@.insert(bucket_ofs, bucket),
            final(self).dirty@ == old(self).dirty@.insert(bucket_ofs, true),
    {
        self.bucket_map.insert(bucket_ofs, bucket);
        self.dirty(bucket_ofs);
    }
}

} // verus!
