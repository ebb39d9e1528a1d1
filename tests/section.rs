use fastanvil::error::Error;
use fastanvil::section::{get_aligned, get_packed, packing_for, palette_bits, Block, Packing, Section};

fn block(name: &str) -> Block {
    Block { name: name.to_owned(), properties: Vec::new() }
}

fn palette(n: usize) -> Vec<Block> {
    (0..n).map(|i| block(&format!("b{}", i))).collect()
}

#[test]
fn bits_per_index() {
    assert_eq!(palette_bits(0), 4);
    assert_eq!(palette_bits(1), 4);
    assert_eq!(palette_bits(16), 4);
    assert_eq!(palette_bits(17), 5);
    assert_eq!(palette_bits(32), 5);
    assert_eq!(palette_bits(33), 6);
    assert_eq!(palette_bits(4096), 12);
}

#[test]
fn aligned_indices_stay_in_their_long() {
    // 5 bits: twelve indices per long, the top four bits unused.
    let longs = [(1u64 << 55) | (3 << 5) | 2, 31];
    assert_eq!(get_aligned(&longs, 5, 0), Some(2));
    assert_eq!(get_aligned(&longs, 5, 1), Some(3));
    assert_eq!(get_aligned(&longs, 5, 11), Some(1));
    assert_eq!(get_aligned(&longs, 5, 12), Some(31));
    assert_eq!(get_aligned(&longs, 5, 24), None);
}

#[test]
fn packed_indices_span_longs() {
    // 5 bits: index 12 takes the top four bits of long 0 and one of long 1.
    let longs = [0xF000_0000_0000_0000u64, 1];
    assert_eq!(get_packed(&longs, 5, 12), Some(31));
    assert_eq!(get_packed(&longs, 5, 11), Some(0));
    assert_eq!(get_packed(&longs, 5, 25), None);
}

#[test]
fn layout_follows_data_version() {
    assert_eq!(packing_for(Some(2529)), Packing::Aligned);
    assert_eq!(packing_for(Some(2000)), Packing::Packed);
    assert_eq!(packing_for(None), Packing::Aligned);
}

#[test]
fn block_lookup_checks_palette() {
    let mut states = vec![0u64; 256];
    // Position (x=1, y=0, z=0) is index 1: slot 1 of long 0.
    states[0] = 3 << 4;
    let section = Section { palette: palette(3), block_states: states.clone() };
    assert!(matches!(section.block_index(Packing::Aligned, 1, 0, 0), Err(Error::PaletteIndexOutOfRange)));
    let section = Section { palette: palette(4), block_states: states };
    assert_eq!(section.block_index(Packing::Aligned, 1, 0, 0).unwrap(), 3);
    assert_eq!(section.block(Packing::Aligned, 1, 0, 0).unwrap().name, "b3");
    assert_eq!(section.block_index(Packing::Aligned, 0, 0, 0).unwrap(), 0);
}

#[test]
fn index_beyond_palette_is_corrupt() {
    let mut states = vec![0u64; 256];
    states[0] = 9;
    let section = Section { palette: palette(2), block_states: states };
    assert!(matches!(section.block_index(Packing::Aligned, 0, 0, 0), Err(Error::PaletteIndexOutOfRange)));
}

#[test]
fn short_block_states_are_refused() {
    let section = Section { palette: palette(2), block_states: vec![0; 3] };
    assert!(matches!(section.block_index(Packing::Packed, 15, 15, 15), Err(Error::InvalidLength)));
}

#[test]
fn single_entry_palette_without_states() {
    let section = Section { palette: palette(1), block_states: Vec::new() };
    assert_eq!(section.block_index(Packing::Aligned, 7, 8, 9).unwrap(), 0);
}
