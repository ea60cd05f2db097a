use gdbm_core::dir::{build_dir_size, build_dir_size_aligned, dir_reader, dirent_elem_size, Directory};
use gdbm_core::ser::{Alignment, DecodeError, Endian};
use gdbm_core::Header;

fn header(alignment: Alignment, endian: Endian, dir_sz: u32) -> Header {
    Header {
        alignment,
        endian,
        bucket_elems: 1,
        dir_bits: 1,
        dir_ofs: 4096,
        dir_sz,
    }
}

#[test]
fn dir_size_for_small_block() {
    assert_eq!(build_dir_size(512), (512, 6));
}

#[test]
fn dir_size_for_page_block() {
    assert_eq!(build_dir_size(4096), (4096, 9));
}

#[test]
fn dir_size_edges() {
    assert_eq!(build_dir_size(0), (64, 3));
    assert_eq!(build_dir_size(64), (64, 3));
    assert_eq!(build_dir_size(65), (128, 4));
    assert_eq!(build_dir_size(u32::MAX), (1 << 31, 28));
}

#[test]
fn dir_size_by_entry_width() {
    assert_eq!(build_dir_size_aligned(Alignment::Align64, 512), (512, 6));
    assert_eq!(build_dir_size_aligned(Alignment::Align64, 4096), (4096, 9));
    assert_eq!(build_dir_size_aligned(Alignment::Align32, 512), (512, 7));
    assert_eq!(build_dir_size_aligned(Alignment::Align32, 4096), (4096, 10));
    assert_eq!(build_dir_size_aligned(Alignment::Align32, 0), (32, 3));
    assert_eq!(build_dir_size_aligned(Alignment::Align32, 33), (64, 4));
    assert_eq!(build_dir_size_aligned(Alignment::Align32, u32::MAX), (1 << 30, 28));
    assert_eq!(build_dir_size_aligned(Alignment::Align64, u32::MAX), (1 << 31, 28));
}

#[test]
fn entry_widths() {
    assert_eq!(dirent_elem_size(Alignment::Align32), 4);
    assert_eq!(dirent_elem_size(Alignment::Align64), 8);
}

#[test]
fn directory_bytes() {
    let d = Directory { dir: vec![1, 0x0102] };
    assert_eq!(d.len(), 2);
    assert_eq!(d.serialize(Alignment::Align32, Endian::Little), vec![1, 0, 0, 0, 2, 1, 0, 0]);
    assert_eq!(
        d.serialize(Alignment::Align64, Endian::Big),
        vec![0, 0, 0, 0, 0, 0, 0, 1, 0, 0, 0, 0, 0, 0, 1, 2]
    );
}

#[test]
fn directory_round_trip() {
    let d = Directory { dir: vec![0x2000, 0x2000, 0x3000, 0x1_0000_0000] };
    for (alignment, endian) in [
        (Alignment::Align64, Endian::Little),
        (Alignment::Align64, Endian::Big),
    ] {
        let bytes = d.serialize(alignment, endian);
        let h = header(alignment, endian, bytes.len() as u32);
        assert_eq!(dir_reader(&bytes, &h), Ok(d.dir.clone()));
    }
    let d = Directory { dir: vec![0x2000, 0x3000, 7] };
    let bytes = d.serialize(Alignment::Align32, Endian::Big);
    let h = header(Alignment::Align32, Endian::Big, 12);
    assert_eq!(dir_reader(&bytes, &h), Ok(d.dir.clone()));
}

#[test]
fn directory_reads_whole_entries_only() {
    let bytes = [1u8, 0, 0, 0, 2, 0, 0, 0, 9];
    let h = header(Alignment::Align32, Endian::Little, 11);
    assert_eq!(dir_reader(&bytes, &h), Ok(vec![1, 2]));
}

#[test]
fn directory_truncated() {
    let bytes = [1u8, 0, 0, 0, 2, 0, 0];
    let h = header(Alignment::Align32, Endian::Little, 8);
    assert_eq!(dir_reader(&bytes, &h), Err(DecodeError::Truncated));
    let h = header(Alignment::Align64, Endian::Little, 8);
    assert_eq!(dir_reader(&bytes, &h), Err(DecodeError::Truncated));
}

#[test]
fn empty_directory() {
    let h = header(Alignment::Align64, Endian::Little, 0);
    assert_eq!(dir_reader(&[], &h), Ok(vec![]));
}
