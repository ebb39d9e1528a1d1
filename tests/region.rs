use fastanvil::error::Error;
use fastanvil::region::Region;
use std::io::Write;

fn zlib(bytes: &[u8]) -> Vec<u8> {
    let mut e = flate2::write::ZlibEncoder::new(Vec::new(), flate2::Compression::default());
    e.write_all(bytes).unwrap();
    e.finish().unwrap()
}

fn empty_region() -> Region {
    Region::from_bytes(Vec::new()).unwrap()
}

#[test]
fn reads_zlib_chunk_at_origin() {
    let packed = zlib(b"hi");
    let mut file = vec![0u8; 3 * 4096];
    file[0..4].copy_from_slice(&[0, 0, 2, 1]);
    let len = (packed.len() + 1) as u32;
    file[8192..8196].copy_from_slice(&len.to_be_bytes());
    file[8196] = 2;
    file[8197..8197 + packed.len()].copy_from_slice(&packed);
    let region = Region::from_bytes(file).unwrap();
    assert_eq!(region.read_chunk(0, 0).unwrap(), b"hi".to_vec());
    assert!(matches!(region.read_chunk(1, 0), Err(Error::ChunkNotPresent)));
}

#[test]
fn empty_file_has_no_chunks() {
    let region = empty_region();
    assert_eq!(region.data().len(), 8192);
    assert!(matches!(region.read_chunk(5, 7), Err(Error::ChunkNotPresent)));
}

#[test]
fn short_header_is_corrupt() {
    assert!(matches!(Region::from_bytes(vec![0u8; 100]), Err(Error::CorruptRegionHeader)));
}

#[test]
fn entry_over_header_is_corrupt() {
    let mut file = vec![0u8; 3 * 4096];
    file[0..4].copy_from_slice(&[0, 0, 1, 1]);
    assert!(matches!(Region::from_bytes(file), Err(Error::CorruptRegionHeader)));
}

#[test]
fn overlapping_entries_are_refused() {
    let mut file = vec![0u8; 4 * 4096];
    file[0..4].copy_from_slice(&[0, 0, 2, 2]);
    file[4..8].copy_from_slice(&[0, 0, 3, 1]);
    assert!(matches!(Region::from_bytes(file), Err(Error::SectorOverlap)));
}

#[test]
fn partial_last_sector_is_padded() {
    let region = Region::from_bytes(vec![0u8; 8192 + 10]).unwrap();
    assert_eq!(region.data().len(), 3 * 4096);
}

#[test]
fn raw_write_then_read_round_trips() {
    let mut region = empty_region();
    let payload: Vec<u8> = (0..5000u32).map(|i| (i % 251) as u8).collect();
    region.write_chunk_raw(3, 4, 3, &payload, 77).unwrap();
    let (scheme, stored) = region.read_chunk_raw(3, 4).unwrap();
    assert_eq!(scheme, 3);
    assert_eq!(stored, payload);
    // 5000 bytes and the five-byte frame need two sectors, after the header.
    assert_eq!(region.data().len(), 4 * 4096);
    let entry = 4 * (4 * 32 + 3);
    assert_eq!(&region.data()[entry..entry + 4], &[0, 0, 2, 2]);
    assert_eq!(&region.data()[4096 + entry..4096 + entry + 4], &77u32.to_be_bytes());
}

#[test]
fn zlib_write_then_read_round_trips() {
    let mut region = empty_region();
    region.write_chunk(0, 0, b"some chunk bytes", 2, 1).unwrap();
    assert_eq!(region.read_chunk(0, 0).unwrap(), b"some chunk bytes".to_vec());
    let (scheme, stored) = region.read_chunk_raw(0, 0).unwrap();
    assert_eq!(scheme, 2);
    assert_ne!(stored, b"some chunk bytes".to_vec());
}

#[test]
fn unknown_scheme_is_refused() {
    let mut region = empty_region();
    assert!(matches!(region.write_chunk(0, 0, b"x", 9, 1), Err(Error::UnknownCompressionScheme(9))));
    assert_eq!(region.data().len(), 8192);
}

#[test]
fn rewrite_keeps_other_chunks_and_reuses_space() {
    let mut region = empty_region();
    region.write_chunk_raw(0, 0, 3, &[1; 100], 1).unwrap();
    region.write_chunk_raw(1, 0, 3, &[2; 100], 1).unwrap();
    // Growing chunk (0, 0) moves it past chunk (1, 0).
    region.write_chunk_raw(0, 0, 3, &[3; 6000], 2).unwrap();
    assert_eq!(&region.data()[0..4], &[0, 0, 4, 2]);
    assert_eq!(region.read_chunk_raw(1, 0).unwrap().1, vec![2; 100]);
    // Its old sector is free again and is taken first.
    region.write_chunk_raw(2, 0, 3, &[4; 10], 3).unwrap();
    assert_eq!(&region.data()[8..12], &[0, 0, 2, 1]);
    assert_eq!(region.read_chunk_raw(0, 0).unwrap().1, vec![3; 6000]);
    assert_eq!(region.read_chunk_raw(2, 0).unwrap().1, vec![4; 10]);
    // A smaller chunk stays in place.
    region.write_chunk_raw(0, 0, 3, &[5; 10], 4).unwrap();
    assert_eq!(&region.data()[0..4], &[0, 0, 4, 1]);
    assert_eq!(region.read_chunk_raw(0, 0).unwrap().1, vec![5; 10]);
}

#[test]
fn oversized_payload_is_refused() {
    let mut region = empty_region();
    let big = vec![0u8; 255 * 4096];
    assert!(matches!(region.write_chunk_raw(0, 0, 3, &big, 0), Err(Error::InvalidLength)));
    assert_eq!(region.data().len(), 8192);
}

#[test]
fn present_chunks_in_row_order() {
    let mut region = empty_region();
    region.write_chunk_raw(5, 1, 3, &[1], 0).unwrap();
    region.write_chunk_raw(2, 0, 3, &[2], 0).unwrap();
    region.write_chunk_raw(0, 1, 3, &[3], 0).unwrap();
    assert_eq!(region.present_chunks(), vec![(2, 0), (0, 1), (5, 1)]);
}

#[test]
fn gzip_write_then_read_round_trips() {
    let mut region = empty_region();
    region.write_chunk(4, 2, b"gzip chunk", 1, 5).unwrap();
    assert_eq!(region.read_chunk(4, 2).unwrap(), b"gzip chunk".to_vec());
    let (scheme, stored) = region.read_chunk_raw(4, 2).unwrap();
    assert_eq!(scheme, 1);
    assert_eq!(&stored[0..2], &[0x1f, 0x8b]);
}

#[test]
fn lz4_is_unsupported() {
    let mut region = empty_region();
    assert!(matches!(region.write_chunk(0, 0, b"x", 4, 1), Err(Error::UnsupportedCompressionScheme(4))));
    region.write_chunk_raw(0, 0, 4, b"frame", 1).unwrap();
    assert!(matches!(region.read_chunk(0, 0), Err(Error::UnsupportedCompressionScheme(4))));
    assert_eq!(region.read_chunk_raw(0, 0).unwrap().1, b"frame".to_vec());
}
