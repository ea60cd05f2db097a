use gdbm_core::avail::AvailElem;
use gdbm_core::bucket::{Bucket, BucketElement};
use gdbm_core::ser::{r32, roff_t, w32, woff_t, Alignment, DecodeError, Endian};
use gdbm_core::Header;

fn sample_element() -> BucketElement {
    BucketElement {
        hash: 0x0102_0304,
        key_start: [b'a', b'b', b'c', b'd'],
        data_ofs: 0x1122,
        key_size: 5,
        data_size: 7,
    }
}

fn header(alignment: Alignment, endian: Endian, bucket_elems: u32, dir_bits: u32) -> Header {
    Header {
        alignment,
        endian,
        bucket_elems,
        dir_bits,
        dir_ofs: 0,
        dir_sz: 0,
    }
}

fn sample_bucket(count: u32, bits: u32, large: bool) -> Bucket {
    let mut avail = Vec::new();
    for i in 0..6u32 {
        let addr = if large { 0x1_0000_0000u64 + i as u64 } else { 0x400 + i as u64 };
        avail.push(AvailElem { sz: 10 * i, addr });
    }
    let mut second = sample_element();
    second.hash = 0x7fff_ffff;
    second.key_start = [1, 2, 3, 4];
    if large {
        second.data_ofs = 0xdead_beef_0000_0001;
    }
    Bucket {
        av_count: 3,
        avail,
        bits,
        count,
        tab: vec![sample_element(), second],
    }
}

#[test]
fn int_encoding_in_both_orders() {
    assert_eq!(w32(true, 0x0102_0304), vec![4, 3, 2, 1]);
    assert_eq!(w32(false, 0x0102_0304), vec![1, 2, 3, 4]);
    assert_eq!(woff_t(false, true, 0x0102_0304), vec![4, 3, 2, 1]);
    assert_eq!(
        woff_t(true, true, 0x0102_0304_0506_0708),
        vec![8, 7, 6, 5, 4, 3, 2, 1]
    );
    assert_eq!(
        woff_t(true, false, 0x0102_0304_0506_0708),
        vec![1, 2, 3, 4, 5, 6, 7, 8]
    );
}

#[test]
fn int_decoding_in_both_orders() {
    let bytes = [9u8, 1, 2, 3, 4, 5, 6, 7, 8];
    assert_eq!(r32(true, &bytes, 1), Ok(0x0403_0201));
    assert_eq!(r32(false, &bytes, 1), Ok(0x0102_0304));
    assert_eq!(roff_t(false, false, &bytes, 1), Ok(0x0102_0304));
    assert_eq!(roff_t(true, true, &bytes, 1), Ok(0x0807_0605_0403_0201));
    assert_eq!(roff_t(true, false, &bytes, 1), Ok(0x0102_0304_0506_0708));
}

#[test]
fn int_decoding_truncated() {
    let bytes = [9u8, 1, 2, 3, 4, 5, 6, 7, 8];
    assert_eq!(r32(true, &bytes, 5), Ok(0x0807_0605));
    assert_eq!(r32(true, &bytes, 6), Err(DecodeError::Truncated));
    assert_eq!(r32(false, &bytes, 100), Err(DecodeError::Truncated));
    assert_eq!(r32(false, &[], 0), Err(DecodeError::Truncated));
    assert_eq!(roff_t(false, true, &bytes, 6), Err(DecodeError::Truncated));
    assert_eq!(roff_t(true, true, &bytes, 1), Ok(0x0807_0605_0403_0201));
    assert_eq!(roff_t(true, true, &bytes, 2), Err(DecodeError::Truncated));
    assert_eq!(roff_t(true, false, &bytes, usize::MAX), Err(DecodeError::Truncated));
}

#[test]
fn element_bytes_narrow_little_endian() {
    let bytes = sample_element().serialize(false, true);
    assert_eq!(
        bytes,
        vec![4, 3, 2, 1, b'a', b'b', b'c', b'd', 0x22, 0x11, 0, 0, 5, 0, 0, 0, 7, 0, 0, 0]
    );
}

#[test]
fn element_bytes_wide_big_endian() {
    let bytes = sample_element().serialize(true, false);
    assert_eq!(
        bytes,
        vec![
            1, 2, 3, 4, b'a', b'b', b'c', b'd', 0, 0, 0, 0, 0, 0, 0x11, 0x22, 0, 0, 0, 5, 0, 0, 0,
            7
        ]
    );
}

#[test]
fn element_round_trip_all_formats() {
    let mut e = sample_element();
    for is_lfs in [false, true] {
        for is_le in [false, true] {
            if is_lfs {
                e.data_ofs = 0xfedc_ba98_7654_3210;
            }
            let bytes = e.serialize(is_lfs, is_le);
            let back = BucketElement::from_reader(is_lfs, is_le, &bytes).unwrap();
            assert_eq!(back, e);
        }
    }
}

#[test]
fn element_truncated() {
    let bytes = sample_element().serialize(true, true);
    assert_eq!(
        BucketElement::from_reader(true, true, &bytes[..23]),
        Err(DecodeError::Truncated)
    );
    assert_eq!(
        BucketElement::from_reader(false, true, &bytes[..19]),
        Err(DecodeError::Truncated)
    );
    assert_eq!(
        BucketElement::from_reader(false, true, &[]),
        Err(DecodeError::Truncated)
    );
}

#[test]
fn avail_round_trip() {
    let a = AvailElem { sz: 77, addr: 0x1234 };
    let bytes = a.serialize(false, false);
    assert_eq!(bytes, vec![0, 0, 0, 77, 0, 0, 0x12, 0x34]);
    assert_eq!(AvailElem::from_reader(false, false, &bytes, 0), Ok(a));
    assert_eq!(
        AvailElem::from_reader(false, false, &bytes, 1),
        Err(DecodeError::Truncated)
    );
}

#[test]
fn bucket_length_by_format() {
    let b = sample_bucket(2, 3, false);
    assert_eq!(b.serialize(false, true).len(), 4 + 6 * 8 + 8 + 2 * 20);
    let b = sample_bucket(2, 3, true);
    assert_eq!(b.serialize(true, true).len(), 8 + 6 * 12 + 8 + 2 * 24);
}

#[test]
fn bucket_padding_only_with_wide_offsets() {
    let b = sample_bucket(1, 2, true);
    let wide = b.serialize(true, false);
    assert_eq!(&wide[..8], &[0, 0, 0, 3, 0, 0, 0, 0]);
    assert_eq!(&wide[8..12], &[0, 0, 0, 0]);
    let b = sample_bucket(1, 2, false);
    let narrow = b.serialize(false, false);
    assert_eq!(&narrow[..8], &[0, 0, 0, 3, 0, 0, 0, 0]);
    assert_eq!(&narrow[8..12], &[0, 0, 0x04, 0x00]);
}

#[test]
fn bucket_round_trip_all_formats() {
    for is_lfs in [false, true] {
        for is_le in [false, true] {
            let alignment = if is_lfs { Alignment::Align64 } else { Alignment::Align32 };
            let endian = if is_le { Endian::Little } else { Endian::Big };
            let b = sample_bucket(2, 3, is_lfs);
            let bytes = b.serialize(is_lfs, is_le);
            let back = Bucket::from_reader(&header(alignment, endian, 2, 3), &bytes).unwrap();
            assert_eq!(back, b);
        }
    }
}

#[test]
fn bucket_count_over_capacity_rejected() {
    let b = sample_bucket(3, 1, false);
    let bytes = b.serialize(false, true);
    let h = header(Alignment::Align32, Endian::Little, 2, 3);
    assert_eq!(Bucket::from_reader(&h, &bytes), Err(DecodeError::InvalidGeometry));
}

#[test]
fn bucket_bits_over_depth_rejected() {
    let b = sample_bucket(1, 4, true);
    let bytes = b.serialize(true, false);
    let h = header(Alignment::Align64, Endian::Big, 2, 3);
    assert_eq!(Bucket::from_reader(&h, &bytes), Err(DecodeError::InvalidGeometry));
}

#[test]
fn bucket_bad_geometry_before_short_table() {
    let b = sample_bucket(3, 1, false);
    let bytes = b.serialize(false, true);
    let h = header(Alignment::Align32, Endian::Little, 2, 3);
    assert_eq!(
        Bucket::from_reader(&h, &bytes[..60]),
        Err(DecodeError::InvalidGeometry)
    );
}

#[test]
fn bucket_truncated() {
    let b = sample_bucket(2, 3, false);
    let bytes = b.serialize(false, true);
    let h = header(Alignment::Align32, Endian::Little, 2, 3);
    assert_eq!(Bucket::from_reader(&h, &[]), Err(DecodeError::Truncated));
    assert_eq!(Bucket::from_reader(&h, &bytes[..59]), Err(DecodeError::Truncated));
    assert_eq!(Bucket::from_reader(&h, &bytes[..60]), Err(DecodeError::Truncated));
    assert_eq!(Bucket::from_reader(&h, &bytes[..99]), Err(DecodeError::Truncated));
    assert!(Bucket::from_reader(&h, &bytes[..100]).is_ok());
}

#[test]
fn bucket_with_no_slots() {
    let mut b = sample_bucket(0, 0, false);
    b.tab.clear();
    let bytes = b.serialize(false, true);
    assert_eq!(bytes.len(), 60);
    let h = header(Alignment::Align32, Endian::Little, 0, 0);
    assert_eq!(Bucket::from_reader(&h, &bytes), Ok(b));
}
