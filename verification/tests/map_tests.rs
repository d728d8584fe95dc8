use elev::entry::ElevEntry;
use elev::map::{ElevCell, ElevMap, ElevPage, Rotation};

fn patch(
    page_x: i32,
    page_z: i32,
    node_x: u8,
    node_z: u8,
    node_radius: u8,
    texture_ids: Vec<u32>,
    heights: Vec<i32>,
) -> ElevEntry {
    ElevEntry { page_x, page_z, node_x, node_z, node_radius, texture_ids, heights }
}

#[test]
fn page_new_is_defaulted() {
    let p = ElevPage::new();
    let c = p.get_cell(0, 0).unwrap();
    assert_eq!(c.texture_id, 0);
    assert_eq!(c.height, 0);
    assert!(matches!(c.rotation, Rotation::R0));
    assert!(p.get_cell(128, 0).is_none());
    assert!(p.get_cell(0, 128).is_none());
}

#[test]
fn page_set_and_get() {
    let mut p = ElevPage::new();
    let cell = ElevCell { texture_id: 9, rotation: Rotation::R1, height: -5 };
    p.set_cell(127, 3, cell);
    let c = p.get_cell(127, 3).unwrap();
    assert_eq!(c.texture_id, 9);
    assert_eq!(c.height, -5);
    assert!(matches!(c.rotation, Rotation::R1));
    // out-of-range writes are dropped without effect
    p.set_cell(200, 3, cell);
    assert_eq!(p.get_cell(0, 3).unwrap().texture_id, 0);
}

#[test]
fn rotation_decoding_of_top_bits() {
    assert!(matches!(elev::map::rotation_of(0x8000), Rotation::R0));
    assert!(matches!(elev::map::rotation_of(0x4000 | 5), Rotation::R1));
    assert!(matches!(elev::map::rotation_of(0), Rotation::R2));
    assert!(matches!(elev::map::rotation_of(0xC000 | 77), Rotation::R3));
    // only the top two bits of the 16-bit field matter
    assert!(matches!(elev::map::rotation_of(0x8000 | 0x3FFF), Rotation::R0));
}

#[test]
fn apply_decodes_rotation_and_strips_bits() {
    let mut m = ElevMap::new();
    m.apply_entry(&patch(0, 0, 0, 0, 1, vec![0x8000], vec![7]));
    let c = m.get_cell(0, 0, 0, 0).unwrap();
    assert_eq!(c.texture_id, 0);
    assert!(matches!(c.rotation, Rotation::R0));
    assert_eq!(c.height, 7);

    let mut m2 = ElevMap::new();
    m2.apply_entry(&patch(0, 0, 0, 0, 1, vec![0x4000 | 5], vec![1]));
    let c2 = m2.get_cell(0, 0, 1, 1).unwrap();
    assert_eq!(c2.texture_id, 5);
    assert!(matches!(c2.rotation, Rotation::R1));
}

#[test]
fn apply_with_no_textures_falls_back_to_zero() {
    let mut m = ElevMap::new();
    m.apply_entry(&patch(0, 0, 4, 4, 2, vec![], vec![55]));
    for dx in 0..4u8 {
        for dz in 0..4u8 {
            let c = m.get_cell(0, 0, 4 + dx, 4 + dz).unwrap();
            assert_eq!(c.texture_id, 0);
            assert!(matches!(c.rotation, Rotation::R2));
            assert_eq!(c.height, 55);
        }
    }
}

#[test]
fn apply_falls_back_to_first_value_past_index() {
    // diameter 2 gives 4 cells but only one texture and one height are
    // declared: cells past index 0 fall back to the head values
    let mut m = ElevMap::new();
    m.apply_entry(&patch(0, 0, 0, 0, 1, vec![0x8000 | 3, 0x8000 | 4], vec![10, 20]));
    assert_eq!(m.get_cell(0, 0, 0, 0).unwrap().texture_id, 3);
    assert_eq!(m.get_cell(0, 0, 1, 0).unwrap().texture_id, 4);
    // index 2 (cell (0,1)) is beyond the two values: falls back to head
    assert_eq!(m.get_cell(0, 0, 0, 1).unwrap().texture_id, 3);
    assert_eq!(m.get_cell(0, 0, 0, 1).unwrap().height, 10);
}

#[test]
fn apply_clips_to_page_bound() {
    // node_x = 126, radius 3: only local x in [126, 128) is written
    let mut m = ElevMap::new();
    m.apply_entry(&patch(0, 0, 126, 0, 3, vec![0x8000 | 7], vec![999]));
    for z in 0..6u8 {
        assert_eq!(m.get_cell(0, 0, 126, z).unwrap().height, 999);
        assert_eq!(m.get_cell(0, 0, 127, z).unwrap().height, 999);
        // x = 125 lies outside the patch square
        assert_eq!(m.get_cell(0, 0, 125, z).unwrap().height, 0);
    }
    // the overflowing ring is discarded, not wrapped to a neighbor page
    assert!(m.get_cell(1, 0, 0, 0).is_none());
    // touched cells: 2 columns x 6 rows = 12, at most (2 * 3)^2 = 36
    let mut touched = 0;
    for x in 0..128u8 {
        for z in 0..128u8 {
            if m.get_cell(0, 0, x, z).unwrap().height == 999 {
                touched += 1;
            }
        }
    }
    assert_eq!(touched, 12);
    assert!(touched <= 36);
}

#[test]
fn zero_radius_touches_nothing() {
    let mut m = ElevMap::new();
    m.apply_entry(&patch(0, 0, 5, 5, 0, vec![1], vec![1]));
    assert_eq!(m.page_count(), 0);
    assert!(m.get_cell(0, 0, 5, 5).is_none());
}

#[test]
fn later_patches_overwrite_earlier_at_shared_cells() {
    let mut m = ElevMap::new();
    // patch A covers (0..4, 0..4) with height 10
    m.apply_entry(&patch(0, 0, 0, 0, 2, vec![0x8000], vec![10]));
    // patch B covers (2..6, 2..6) with height 20
    m.apply_entry(&patch(0, 0, 2, 2, 2, vec![0x8000], vec![20]));
    assert_eq!(m.get_cell(0, 0, 3, 3).unwrap().height, 20);
    assert_eq!(m.get_cell(0, 0, 1, 1).unwrap().height, 10);
    assert_eq!(m.get_cell(0, 0, 5, 5).unwrap().height, 20);
    // a cell neither covers keeps the page default
    assert_eq!(m.get_cell(0, 0, 7, 7).unwrap().height, 0);
}

#[test]
fn get_cell_distinguishes_missing_page_from_default_cell() {
    let mut m = ElevMap::new();
    assert!(m.get_cell(0, 0, 0, 0).is_none());
    m.apply_entry(&patch(0, 0, 0, 0, 1, vec![0x8000 | 1], vec![1]));
    // a populated page answers even at untouched cells
    assert!(m.get_cell(0, 0, 100, 100).is_some());
    // another page stays unpopulated
    assert!(m.get_cell(5, 5, 0, 0).is_none());
    // out-of-range local coordinates are never cells
    assert!(m.get_cell(0, 0, 128, 0).is_none());
}

#[test]
fn bounds_of_empty_map_is_a_sentinel() {
    let m = ElevMap::new();
    let (min_x, min_z, max_x, max_z) = m.get_bounds();
    assert_eq!((min_x, min_z, max_x, max_z), (i32::MAX, i32::MAX, i32::MIN, i32::MIN));
    // distinguishable from any populated range: minima above maxima
    assert!(min_x > max_x && min_z > max_z);
}

#[test]
fn bounds_of_two_pages() {
    let mut m = ElevMap::new();
    m.apply_entry(&patch(0, 0, 0, 0, 1, vec![0x8000], vec![1]));
    m.apply_entry(&patch(2, -1, 0, 0, 1, vec![0x8000], vec![1]));
    assert_eq!(m.get_bounds(), (0, -1, 2, 0));
}

#[test]
fn page_count_and_iter_pages_in_first_touch_order() {
    let mut m = ElevMap::new();
    m.apply_entry(&patch(1, 1, 0, 0, 1, vec![0x8000], vec![1]));
    m.apply_entry(&patch(-3, 0, 0, 0, 1, vec![0x8000], vec![1]));
    m.apply_entry(&patch(1, 1, 9, 9, 1, vec![0x8000], vec![2]));
    assert_eq!(m.page_count(), 2);
    assert_eq!(m.iter_pages(), vec![(1, 1), (-3, 0)]);
}

#[test]
fn map_from_dump_applies_in_file_order() {
    let text = "elevdump version 2\n0 0 0 0 2 1 1 32768 10\n\n0 0 2 2 2 1 1 32768 20\n";
    let dump = elev::dump::ElevDump::from_str(text).unwrap();
    assert_eq!(dump.entries.len(), 2);
    let m = ElevMap::from(&dump);
    assert_eq!(m.get_cell(0, 0, 3, 3).unwrap().height, 20);
    assert_eq!(m.get_cell(0, 0, 1, 1).unwrap().height, 10);
    let m2 = ElevMap::from_dump(&dump);
    assert_eq!(m2.get_cell(0, 0, 3, 3).unwrap().height, 20);
}

#[test]
fn rotation_default_is_zero_degrees() {
    let r: Rotation = Default::default();
    assert!(matches!(r, Rotation::R0));
}
