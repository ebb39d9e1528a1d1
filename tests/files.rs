use fastanvil::files::{coords_from_region, RCoord, RegionFileLoader};
use std::path::PathBuf;

#[test]
fn loader_keeps_its_directory() {
    let loader = RegionFileLoader::new(PathBuf::from("world/region"));
    assert_eq!(loader.region_dir, PathBuf::from("world/region"));
}

#[test]
fn coordinates_from_file_names() {
    assert_eq!(coords_from_region("r.1.-2.mca"), Some((RCoord(1), RCoord(-2))));
    assert_eq!(coords_from_region("r.-30.0.mca"), Some((RCoord(-30), RCoord(0))));
    assert_eq!(coords_from_region("r.+3.0.mca"), None);
    assert_eq!(coords_from_region("r.12.34"), None);
    assert_eq!(coords_from_region("a.1.2.mca"), None);
    assert_eq!(coords_from_region("r.1.2.mca.mca"), None);
    assert_eq!(coords_from_region("r.1.2.mcb"), None);
    assert_eq!(coords_from_region("r.1.x.mca"), None);
    assert_eq!(coords_from_region("r.mca"), None);
    assert_eq!(coords_from_region("r.1.mca"), None);
    assert_eq!(coords_from_region("r.a.2.mca"), None);
    assert_eq!(coords_from_region("r.-.2.mca"), None);
    assert_eq!(coords_from_region("r..2.mca"), None);
    assert_eq!(coords_from_region("region"), None);
    assert_eq!(coords_from_region("r.99999999999999999999.0.mca"), None);
}
