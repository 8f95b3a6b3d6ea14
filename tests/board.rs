use rand::rngs::StdRng;
use rand::SeedableRng;
use settlers::building::Building;
use settlers::card::Resource;
use settlers::deal::{draw_step, draw_tiles};
use settlers::map::Board;
use settlers::parser::{parse_map, ParseMapError};

fn map_text(resources: &str, chances: &str, dims: &str, rows: &[&str]) -> String {
    let mut s = String::new();
    s.push_str("# a test map\n__FOCM__\n[EXPANSION]\nbase\n[RESOURCES]\n");
    s.push_str(resources);
    s.push_str("\n[CHANCES]\n");
    s.push_str(chances);
    s.push_str("\n[MAP]\n");
    s.push_str(dims);
    s.push('\n');
    for r in rows {
        s.push_str(r);
        s.push('\n');
    }
    s
}

fn default_map() -> String {
    map_text(
        "WO:4,BR:3,OR:3,WH:4,SH:4,DE:1",
        "2,3,3,4,4,5,5,6,6,8,8,9,9,10,10,11,11,12",
        "5x5",
        &["01110", "11110", "11111", "11110", "01110"],
    )
}

fn parse_err(text: &str) -> ParseMapError {
    match Board::parse(text) {
        Ok(_) => panic!("map should have been refused"),
        Err(e) => e,
    }
}

#[test]
fn default_map_parses() {
    let b = Board::parse(&default_map()).unwrap();
    assert_eq!(b.width(), 7);
    assert_eq!(b.height(), 7);
    let mut land = 0;
    for j in 0..b.height() {
        for i in 0..b.width() {
            if b.tile_at(i, j).is_some() {
                land += 1;
            }
        }
    }
    assert_eq!(land, 19);
    assert!(b.tile_at(0, 0).is_none());
    assert!(b.tile_at(1, 1).is_none());
    assert!(b.tile_at(2, 1).is_some());
}

#[test]
fn single_tile_scenario() {
    let text = map_text("WO:1", "6", "1x1", &["1"]);
    let mut b = Board::parse(&text).unwrap();
    assert_eq!(b.width(), 3);
    assert_eq!(b.height(), 3);
    assert_eq!(b.structure_count(), 6);
    let mut rng = StdRng::seed_from_u64(7);
    b.randomize(&mut rng);
    let h = b.tile_at(1, 1).unwrap();
    assert_eq!(h.resource, Resource::Wood(6));
    for c in 0..6 {
        let slot = h.corners[c].unwrap();
        let st = b.structure(slot);
        assert_eq!(st.hexes, [Some((1, 1)), None, None]);
    }
    let mut slots: Vec<usize> = h.corners.iter().map(|c| c.unwrap()).collect();
    slots.sort();
    slots.dedup();
    assert_eq!(slots.len(), 6);
}

#[test]
fn neighbours_share_two_slots() {
    let text = map_text("WO:1,BR:1", "6,8", "2x1", &["11"]);
    let b = Board::parse(&text).unwrap();
    assert_eq!(b.structure_count(), 10);
    let a = b.tile_at(1, 1).unwrap();
    let c = b.tile_at(2, 1).unwrap();
    assert_eq!(a.corners[1], c.corners[5]);
    assert_eq!(a.corners[2], c.corners[4]);
    let mut all: Vec<usize> = a.corners.iter().chain(c.corners.iter()).map(|x| x.unwrap()).collect();
    all.sort();
    all.dedup();
    assert_eq!(all.len(), 10);
    let shared = b.structure(a.corners[1].unwrap());
    assert_eq!(shared.hexes[0], Some((1, 1)));
    assert!(shared.hexes.contains(&Some((2, 1))));
}

#[test]
fn vertical_neighbours_share_slots_in_both_row_parities() {
    // Rows 1 (odd) and 2 (even): tile (1, 2) sits above and to the right of (1, 1).
    let text = map_text("WO:1,BR:1,OR:1", "6,8,9", "2x2", &["11", "10"]);
    let b = Board::parse(&text).unwrap();
    let low_left = b.tile_at(1, 1).unwrap();
    let low_right = b.tile_at(2, 1).unwrap();
    let up = b.tile_at(1, 2).unwrap();
    // The bottom corner of the upper tile is where the three meet.
    assert_eq!(up.corners[3], low_left.corners[1]);
    assert_eq!(up.corners[3], low_right.corners[5]);
    assert_eq!(up.corners[4], low_left.corners[0]);
    assert_eq!(up.corners[2], low_right.corners[0]);
    let meet = b.structure(up.corners[3].unwrap());
    assert!(meet.hexes.iter().all(|h| h.is_some()));
    assert_eq!(b.structure_count(), 6 + 4 + 3);
}

#[test]
fn settlement_and_city_yield() {
    let text = map_text("WO:1", "6", "1x1", &["1"]);
    let mut b = Board::parse(&text).unwrap();
    let mut rng = StdRng::seed_from_u64(1);
    b.randomize(&mut rng);
    let slot = b.tile_at(1, 1).unwrap().corners[0].unwrap();
    assert!(b.resource_yield(slot, 6).is_empty());
    b.set_building(slot, Building::Settlement, 1);
    assert_eq!(b.resource_yield(slot, 6), vec![Resource::Wood(1)]);
    assert!(b.resource_yield(slot, 5).is_empty());
    b.set_building(slot, Building::City, 1);
    assert_eq!(b.resource_yield(slot, 6), vec![Resource::Wood(2)]);
    b.set_building(slot, Building::Road, 1);
    assert!(b.resource_yield(slot, 6).is_empty());
}

#[test]
fn robbed_tile_yields_nothing() {
    let text = map_text("WO:1", "6", "1x1", &["1"]);
    let mut b = Board::parse(&text).unwrap();
    let mut rng = StdRng::seed_from_u64(3);
    b.randomize(&mut rng);
    let slot = b.tile_at(1, 1).unwrap().corners[2].unwrap();
    b.set_building(slot, Building::City, 1);
    b.rob(1, 1);
    assert!(b.tile_at(1, 1).unwrap().is_robbed());
    assert!(b.resource_yield(slot, 6).is_empty());
}

#[test]
fn yield_from_two_tiles_in_slot_order() {
    let text = map_text("WO:1,WH:1", "5,5", "2x1", &["11"]);
    let mut b = Board::parse(&text).unwrap();
    let mut rng = StdRng::seed_from_u64(11);
    b.randomize(&mut rng);
    let slot = b.tile_at(1, 1).unwrap().corners[1].unwrap();
    b.set_building(slot, Building::Settlement, 1);
    let got = b.resource_yield(slot, 5);
    let first = b.tile_at(1, 1).unwrap().resource.clone_with_value(1);
    let second = b.tile_at(2, 1).unwrap().resource.clone_with_value(1);
    assert_eq!(got, vec![first, second]);
}

fn kind_counts(b: &Board) -> ([usize; 6], Vec<u8>) {
    let mut kinds = [0usize; 6];
    let mut tokens = Vec::new();
    for j in 0..b.height() {
        for i in 0..b.width() {
            if let Some(h) = b.tile_at(i, j) {
                let k = match h.resource {
                    Resource::Wood(_) => 0,
                    Resource::Brick(_) => 1,
                    Resource::Ore(_) => 2,
                    Resource::Wheat(_) => 3,
                    Resource::Sheep(_) => 4,
                    Resource::Desert(d) => {
                        assert_eq!(d, None);
                        5
                    }
                };
                kinds[k] += 1;
                if let Some(t) = h.resource.chance() {
                    tokens.push(t);
                }
            }
        }
    }
    tokens.sort();
    (kinds, tokens)
}

#[test]
fn randomize_keeps_the_templates() {
    let mut b = Board::parse(&default_map()).unwrap();
    let mut rng = StdRng::seed_from_u64(42);
    let slots = b.structure_count();
    for _ in 0..5 {
        b.randomize(&mut rng);
        let (kinds, tokens) = kind_counts(&b);
        assert_eq!(kinds, [4, 3, 3, 4, 4, 1]);
        assert_eq!(tokens, vec![2, 3, 3, 4, 4, 5, 5, 6, 6, 8, 8, 9, 9, 10, 10, 11, 11, 12]);
        assert_eq!(b.structure_count(), slots);
    }
}

#[test]
fn randomize_changes_the_layout() {
    let mut b = Board::parse(&default_map()).unwrap();
    let mut rng = StdRng::seed_from_u64(5);
    let mut layouts = Vec::new();
    for _ in 0..6 {
        b.randomize(&mut rng);
        let mut l = Vec::new();
        for j in 0..b.height() {
            for i in 0..b.width() {
                if let Some(h) = b.tile_at(i, j) {
                    l.push(h.resource);
                }
            }
        }
        layouts.push(l);
    }
    assert!(layouts.iter().any(|l| *l != layouts[0]));
}

#[test]
fn zero_counts_and_comments_are_accepted() {
    let text = "\n  __FOCM__  \n# comment\n[EXPANSION]\nbase\n\n[RESOURCES]\n WO:2 , BR:0,DE:+1\n[CHANCES]\n 4 ,+9\n[MAP]\n3x1\r\n111\r\n1\n";
    // The map section has one row; the line after it is not part of the map.
    let mut b = Board::parse(text).unwrap();
    let mut rng = StdRng::seed_from_u64(9);
    b.randomize(&mut rng);
    let (kinds, tokens) = kind_counts(&b);
    assert_eq!(kinds, [2, 0, 0, 0, 0, 1]);
    assert_eq!(tokens, vec![4, 9]);
}

#[test]
fn error_not_format_header() {
    assert_eq!(parse_err(""), ParseMapError::NotFocm);
    let text = default_map().replace("__FOCM__", "__FOCX__");
    assert_eq!(parse_err(&text), ParseMapError::NotFocm);
}

#[test]
fn error_expansion_missing() {
    let text = default_map().replace("[EXPANSION]", "[EXPANSIONS]");
    assert_eq!(parse_err(&text), ParseMapError::ExpansionNotFound);
}

#[test]
fn error_resources_missing() {
    let text = default_map().replace("[RESOURCES]", "[RESOURCE]");
    assert_eq!(parse_err(&text), ParseMapError::ResourcesNotFound);
}

#[test]
fn error_resource_parse() {
    let text = map_text("WO:1,XX:1", "6", "1x1", &["1"]);
    assert_eq!(parse_err(&text), ParseMapError::ResourceParseError);
    let text = map_text("WO:1:2", "6", "1x1", &["1"]);
    assert_eq!(parse_err(&text), ParseMapError::ResourceParseError);
    let text = map_text("WO:-1", "6", "1x1", &["1"]);
    assert_eq!(parse_err(&text), ParseMapError::ResourceParseError);
    let text = map_text("WO: 1", "6", "1x1", &["1"]);
    assert_eq!(parse_err(&text), ParseMapError::ResourceParseError);
}

#[test]
fn error_chances_missing() {
    let text = default_map().replace("[CHANCES]", "[CHANCE]");
    assert_eq!(parse_err(&text), ParseMapError::ChanceNotFound);
}

#[test]
fn error_chance_parse() {
    let text = map_text("WO:1", "six", "1x1", &["1"]);
    assert_eq!(parse_err(&text), ParseMapError::ChanceParseError);
    let text = map_text("WO:2", "6,,8", "1x2", &["1", "1"]);
    assert_eq!(parse_err(&text), ParseMapError::ChanceParseError);
}

#[test]
fn error_chance_not_suitable() {
    for bad in ["7", "1", "13", "0", "200", "300", "-3", "-0", "99999999999999999999999"] {
        let text = map_text("WO:1", bad, "1x1", &["1"]);
        assert_eq!(parse_err(&text), ParseMapError::ChanceNotSuitable);
    }
    // The first item that fails decides.
    let text = map_text("WO:2", "7,x", "2x1", &["11"]);
    assert_eq!(parse_err(&text), ParseMapError::ChanceNotSuitable);
    let text = map_text("WO:2", "x,7", "2x1", &["11"]);
    assert_eq!(parse_err(&text), ParseMapError::ChanceParseError);
}

#[test]
fn error_hex_chance_mismatch() {
    let text = map_text("WO:2,DE:1", "6", "3x1", &["111"]);
    assert_eq!(parse_err(&text), ParseMapError::HexChanceMismatch);
    let text = map_text("WO:2,DE:1", "6,8,9", "3x1", &["111"]);
    assert_eq!(parse_err(&text), ParseMapError::HexChanceMismatch);
    let text = map_text("DE:65", "", "1x1", &["1"]);
    assert_eq!(parse_err(&text), ParseMapError::ChanceParseError);
    let text = map_text("DE:65", "6", "1x1", &["1"]);
    assert_eq!(parse_err(&text), ParseMapError::HexChanceMismatch);
}

#[test]
fn large_counts_are_too_many_tiles() {
    let text = map_text("WO:300", "6", "1x1", &["1"]);
    assert_eq!(parse_err(&text), ParseMapError::HexChanceMismatch);
    let text = map_text("WO:65", "6", "1x1", &["1"]);
    assert_eq!(parse_err(&text), ParseMapError::HexChanceMismatch);
    let text = map_text("WO:1,DE:100000000000000000000", "6", "1x1", &["1"]);
    assert_eq!(parse_err(&text), ParseMapError::HexChanceMismatch);
    // The chances line is read before the counts are checked.
    let text = map_text("WO:300", "x", "1x1", &["1"]);
    assert_eq!(parse_err(&text), ParseMapError::ChanceParseError);
}

#[test]
fn desert_counts_add_up() {
    let text = map_text("WO:1,DE:1,DE:1", "6", "3x1", &["111"]);
    let mut b = Board::parse(&text).unwrap();
    let mut rng = StdRng::seed_from_u64(2);
    b.randomize(&mut rng);
    let (kinds, tokens) = kind_counts(&b);
    assert_eq!(kinds, [1, 0, 0, 0, 0, 2]);
    assert_eq!(tokens, vec![6]);
}

#[test]
fn error_map_missing() {
    let text = default_map().replace("[MAP]", "[MAPS]");
    assert_eq!(parse_err(&text), ParseMapError::MapNotFound);
    let text = "__FOCM__\n[EXPANSION]\nbase\n[RESOURCES]\nWO:1\n[CHANCES]\n6\n[MAP]\n";
    assert_eq!(parse_err(text), ParseMapError::MapNotFound);
}

#[test]
fn error_map_parse() {
    let text = map_text("WO:1", "6", "1x1", &["2"]);
    assert_eq!(parse_err(&text), ParseMapError::MapParseError);
    let text = map_text("WO:1", "6", "1by1", &["1"]);
    assert_eq!(parse_err(&text), ParseMapError::MapParseError);
    let text = map_text("WO:1", "6", "1x1x1", &["1"]);
    assert_eq!(parse_err(&text), ParseMapError::MapParseError);
    let text = map_text("WO:1", "6", "2x1", &["1"]);
    assert_eq!(parse_err(&text), ParseMapError::MapParseError);
}

#[test]
fn error_map_size_incompatible() {
    let text = map_text("WO:2", "6,8", "2x1", &["10"]);
    assert_eq!(parse_err(&text), ParseMapError::MapSizeIncompatability);
    let text = map_text("WO:1", "6", "1x2", &["1"]);
    assert_eq!(parse_err(&text), ParseMapError::MapSizeIncompatability);
}

#[test]
fn parse_map_gives_the_land_mask() {
    let text = map_text("WO:2", "6,8", "2x2", &["10", "01"]);
    let layout = parse_map(&text).unwrap();
    assert_eq!(layout.width, 4);
    assert_eq!(layout.height, 4);
    let mut expect = vec![false; 16];
    expect[1 * 4 + 1] = true;
    expect[2 * 4 + 2] = true;
    assert_eq!(layout.land, expect);
    assert_eq!(layout.resources, vec![Resource::Wood(2)]);
    assert_eq!(layout.chances, vec![6, 8]);
}

#[test]
fn map_parser_check_output() {
    assert!(parse_map(&default_map()).is_ok());
}

#[test]
fn buffers_for_the_renderer() {
    let text = map_text("WO:1,DE:1", "6", "2x1", &["11"]);
    let mut b = Board::parse(&text).unwrap();
    let mut rng = StdRng::seed_from_u64(4);
    b.randomize(&mut rng);
    let tiles = b.hex_buffers();
    assert_eq!(tiles.len(), 2);
    assert_eq!((tiles[0].column, tiles[0].row), (1, 1));
    assert_eq!((tiles[1].column, tiles[1].row), (2, 1));
    let mut metas: Vec<u32> = tiles.iter().map(|t| t.meta).collect();
    metas.sort();
    assert_eq!(metas, vec![1, 2 + 256 * 6]);
    let slot = b.tile_at(2, 1).unwrap().corners[3].unwrap();
    b.set_building(slot, Building::Settlement, 5);
    let slots = b.building_buffers();
    assert_eq!(slots.len(), 10);
    assert_eq!(slots[slot].meta, 2 + 16 * 5);
    assert_eq!((slots[slot].column, slots[slot].row, slots[slot].corner), (2, 1, 3));
    assert_eq!(slots[0].meta, 0);
}

#[test]
fn draw_step_takes_the_picked_entry() {
    let mut left = vec![Resource::Wood(2), Resource::Desert(Some(1))];
    let mut numbers = vec![6u8, 8];
    let mut drawn = Vec::new();
    draw_step(&mut left, &mut numbers, &mut drawn, 0);
    assert_eq!(drawn, vec![Resource::Wood(8)]);
    assert_eq!(left, vec![Resource::Wood(1), Resource::Desert(Some(1))]);
    assert_eq!(numbers, vec![6]);
    draw_step(&mut left, &mut numbers, &mut drawn, 1);
    assert_eq!(drawn, vec![Resource::Wood(8), Resource::Desert(None)]);
    assert_eq!(left, vec![Resource::Wood(1)]);
    assert_eq!(numbers, vec![6]);
    draw_step(&mut left, &mut numbers, &mut drawn, 0);
    assert_eq!(drawn, vec![Resource::Wood(8), Resource::Desert(None), Resource::Wood(6)]);
    assert!(left.is_empty());
    assert!(numbers.is_empty());
}

#[test]
fn lay_tiles_in_scan_order() {
    let text = map_text("WO:1,DE:1,SH:1", "6,9", "2x2", &["11", "01"]);
    let mut b = Board::parse(&text).unwrap();
    b.lay_tiles(&vec![Resource::Sheep(9), Resource::Desert(None), Resource::Wood(6)]);
    assert_eq!(b.tile_at(1, 1).unwrap().resource, Resource::Sheep(9));
    assert_eq!(b.tile_at(2, 1).unwrap().resource, Resource::Desert(None));
    assert_eq!(b.tile_at(2, 2).unwrap().resource, Resource::Wood(6));
}

#[test]
fn draw_tiles_pairs_every_number() {
    let mut rng = StdRng::seed_from_u64(12);
    let template = vec![Resource::Ore(2), Resource::Desert(Some(1)), Resource::Wheat(0)];
    let drawn = draw_tiles(&template, &vec![3, 11], &mut rng);
    assert_eq!(drawn.len(), 3);
    let mut tokens: Vec<u8> = drawn.iter().filter_map(|r| r.chance()).collect();
    tokens.sort();
    assert_eq!(tokens, vec![3, 11]);
    assert!(drawn.contains(&Resource::Desert(None)));
}
