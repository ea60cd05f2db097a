//! The hash directory: a flat array of bucket offsets indexed by a prefix of
//! the key's hash, and the sizing of a fresh directory.

use vstd::arithmetic::power2::{
    lemma_pow2_adds, lemma_pow2_strictly_increases, lemma_pow2_unfold, lemma2_to64, pow2,
};
use vstd::prelude::*;

use crate::ser::{
    lemma_bytes_len, lemma_fixed_chunks, lemma_off_round_trip, off_at, off_bytes, off_fits,
    off_width, roff_t, woff_t, Alignment, DecodeError, Endian,
};
use crate::{Header, GDBM_HASH_BITS};

verus! {

/// Byte size and bit depth of a fresh directory for blocks of `block_sz`
/// bytes, with entries of the width of `alignment`: it starts at 8 entries
/// and depth 3, and doubles while it is smaller than a block and the depth
/// is below `GDBM_HASH_BITS - 3`.
pub fn build_dir_size_aligned(alignment: Alignment, block_sz: u32) -> (r: (u32, u32))
    ensures
        3 <= r.1 <= GDBM_HASH_BITS - 3,
        r.0 == 8 * align_width(alignment) * pow2((r.1 - 3) as nat),
        r.1 < GDBM_HASH_BITS - 3 ==> r.0 >= block_sz,
        r.1 > 3 ==> 8 * align_width(alignment) * pow2((r.1 - 4) as nat) < block_sz,
{
    let w = dirent_elem_size(alignment) as u32;
    let mut dir_size: u32 = 8 * w;
    let mut dir_bits: u32 = 3;
    proof {
        lemma2_to64();
        assert(dir_size == 8 * w * pow2(0)) by (nonlinear_arith)
            requires
                dir_size == 8 * w,
                pow2(0) == 1,
        ;
    }
    while dir_size < block_sz && dir_bits < GDBM_HASH_BITS - 3
        invariant
            w == align_width(alignment),
            w == 4 || w == 8,
            3 <= dir_bits <= GDBM_HASH_BITS - 3,
            dir_size == 8 * w * pow2((dir_bits - 3) as nat),
            dir_bits > 3 ==> 8 * w * pow2((dir_bits - 4) as nat) < block_sz,
        decreases GDBM_HASH_BITS - dir_bits,
    {
        let ghost e = (dir_bits - 3) as nat;
        proof {
            lemma_pow2_unfold(e + 1);
            lemma2_to64();
            if e < 24 {
                lemma_pow2_strictly_increases(e, 24);
            }
            let p = pow2(e);
            assert(8 * w * p <= 64 * 0x100_0000) by (nonlinear_arith)
                requires
                    w <= 8,
                    p <= 0x100_0000,
            ;
            assert(2 * (8 * w * p) == 8 * w * pow2(e + 1)) by (nonlinear_arith)
                requires
                    pow2(e + 1) == 2 * p,
            ;
        }
        dir_size = dir_size * 2;
        dir_bits = dir_bits + 1;
    }
    (dir_size, dir_bits)
}

/// Byte size and bit depth of a fresh directory for blocks of `block_sz`
/// bytes, with 8-byte entries: the depth is the least one from 3 up to
/// `GDBM_HASH_BITS - 3` whose directory, `2^(bits + 3)` bytes, fills a block.
pub fn build_dir_size(block_sz: u32) -> (r: (u32, u32))
    ensures
        3 <= r.1 <= GDBM_HASH_BITS - 3,
        r.0 == pow2((r.1 + 3) as nat),
        r.1 < GDBM_HASH_BITS - 3 ==> r.0 >= block_sz,
        r.1 > 3 ==> pow2((r.1 + 2) as nat) < block_sz,
{
    let r = build_dir_size_aligned(Alignment::Align64, block_sz);
    proof {
        lemma2_to64();
        lemma_pow2_adds(6, (r.1 - 3) as nat);
        if r.1 > 3 {
            lemma_pow2_adds(6, (r.1 - 4) as nat);
        }
    }
    r
}

/// The bucket directory: one bucket offset per hash prefix.
#[derive(Debug)]
pub struct Directory {
    pub dir: Vec<u64>,
}

/// Encoding of a directory: each offset in turn, as an offset field.
pub open spec fn dir_bytes(is_lfs: bool, is_le: bool, d: Seq<u64>) -> Seq<u8> {
    d.map_values(|v: u64| off_bytes(is_lfs, is_le, v)).flatten_alt()
}

/// The `n` offsets encoded one after another at the start of `s`.
pub open spec fn dir_at(is_lfs: bool, is_le: bool, n: nat, s: Seq<u8>) -> Seq<u64> {
    Seq::new(n, |i: int| off_at(is_lfs, is_le, s, i * off_width(is_lfs)))
}

/// Offset width of an alignment.
pub open spec fn align_width(alignment: Alignment) -> nat {
    off_width(alignment == Alignment::Align64)
}

/// Reading an encoded directory of `n` offsets gives it back, when each
/// offset fits its field.
pub proof fn lemma_dir_round_trip(is_lfs: bool, is_le: bool, d: Seq<u64>)
    requires
        forall|i: int| 0 <= i < d.len() ==> off_fits(is_lfs, #[trigger] d[i]),
    ensures
        dir_bytes(is_lfs, is_le, d).len() == d.len() * off_width(is_lfs),
        (d.len() * off_width(is_lfs)) / off_width(is_lfs) == d.len(),
        dir_at(is_lfs, is_le, d.len(), dir_bytes(is_lfs, is_le, d)) == d,
{
    let w = off_width(is_lfs) as int;
    let s = dir_bytes(is_lfs, is_le, d);
    let c = d.map_values(|v: u64| off_bytes(is_lfs, is_le, v));
    assert forall|i: int| 0 <= i < c.len() implies (#[trigger] c[i]).len() == w by {
        lemma_bytes_len(is_lfs, is_le, 0, d[i]);
    }
    lemma_fixed_chunks(c, w);
    vstd::arithmetic::div_mod::lemma_div_by_multiple(d.len() as int, w);
    assert forall|i: int| 0 <= i < d.len() implies off_at(is_lfs, is_le, s, i * w)
        == #[trigger] d[i] by {
        assert(0 <= i * w && i * w + w <= d.len() * w) by (nonlinear_arith)
            requires
                0 <= i < d.len(),
                0 <= w,
        ;
        assert(c[i] == off_bytes(is_lfs, is_le, d[i]));
        lemma_off_round_trip(is_lfs, is_le, d[i], s, i * w);
    }
    assert(dir_at(is_lfs, is_le, d.len(), s) =~= d);
}

impl Directory {
    /// Number of entries.
    pub fn len(&self) -> (r: usize)
        ensures
            r == self.dir@.len(),
    {
        self.dir.len()
    }

    /// Encodes every entry, in index order, as an offset field.
    pub fn serialize(&self, alignment: Alignment, endian: Endian) -> (r: Vec<u8>)
        ensures
            r@ == dir_bytes(alignment == Alignment::Align64, endian == Endian::Little, self.dir@),
    {
        let is_lfs = alignment == Alignment::Align64;
        let is_le = endian == Endian::Little;
        let mut buf: Vec<u8> = Vec::new();
        let mut i: usize = 0;
        while i < self.dir.len()
            invariant
                i <= self.dir@.len(),
                buf@ == dir_bytes(is_lfs, is_le, self.dir@.take(i as int)),
            decreases self.dir@.len() - i,
        {
            let ghost f = |v: u64| off_bytes(is_lfs, is_le, v);
            assert(self.dir@.take(i + 1).map_values(f).drop_last() =~= self.dir@.take(
                i as int,
            ).map_values(f));
            assert(buf@ =~= dir_bytes(is_lfs, is_le, self.dir@.take(i as int)));
            buf.append(&mut woff_t(is_lfs, is_le, self.dir[i]));
            i = i + 1;
        }
        assert(self.dir@.take(i as int) =~= self.dir@);
        buf
    }
}

/// Width in bytes of a directory entry.
pub fn dirent_elem_size(alignment: Alignment) -> (r: usize)
    ensures
        r == align_width(alignment),
{
    match alignment {
        Alignment::Align32 => 4,
        Alignment::Align64 => 8,
    }
}

/// Reads the directory of `header.dir_sz` bytes from the start of `rdr`,
/// which holds the file's bytes from `header.dir_ofs` on.
pub fn dir_reader(rdr: &[u8], header: &Header) -> (r: Result<Vec<u64>, DecodeError>)
    ensures
        ({
            let w = align_width(header.alignment);
            let n = (header.dir_sz as nat) / w;
            match r {
                Ok(d) => rdr@.len() >= n * w && d@ == dir_at(header.lfs(), header.le(), n, rdr@),
                Err(e) => rdr@.len() < n * w && e == DecodeError::Truncated,
            }
        }),
{
    let is_lfs = header.is_lfs();
    let is_le = header.is_le();
    let w = dirent_elem_size(header.alignment);
    let dirent_count = header.dir_sz as usize / w;
    let len = rdr.len();
    let mut dir: Vec<u64> = Vec::new();
    let mut pos: usize = 0;
    let mut idx: usize = 0;
    while idx < dirent_count
        invariant
            dir@.len() == idx,
            idx <= dirent_count,
            pos == idx * w,
            pos <= len == rdr@.len(),
            w == off_width(is_lfs),
            dirent_count == (header.dir_sz as nat) / (w as nat),
            is_lfs == header.lfs(),
            is_le == header.le(),
            forall|k: int|
                0 <= k < idx ==> #[trigger] dir@[k] == off_at(is_lfs, is_le, rdr@, k * w),
        decreases dirent_count - idx,
    {
        if len - pos < w {
            assert(len < dirent_count * w) by (nonlinear_arith)
                requires
                    len < pos + w,
                    pos == idx * w,
                    idx < dirent_count,
            ;
            return Err(DecodeError::Truncated);
        }
        match roff_t(is_lfs, is_le, rdr, pos) {
            Ok(v) => dir.push(v),
            Err(e) => return Err(e),
        }
        assert(pos + w == (idx + 1) * w) by (nonlinear_arith)
            requires
                pos == idx * w,
        ;
        pos = pos + w;
        idx = idx + 1;
    }
    assert(dir@ =~= dir_at(is_lfs, is_le, dirent_count as nat, rdr@));
    Ok(dir)
}

} // verus!
