use banana_monkey::ground::{ground_tiles, underlay, GroundTile, Trodden, Underlay};
use banana_monkey::map::{Census, Tile, VillageMap};
use banana_monkey::scenery::{drawn, ground_variant};

fn clearing() -> VillageMap {
    VillageMap::parse(&["#####", "#@.*#", "#...#", "#####"].join("\n")).expect("parses")
}

fn ringed() -> VillageMap {
    VillageMap::parse(&["#######", "#+++++#", "#+@.*+#", "#+++++#", "#######"].join("\n"))
        .expect("parses")
}

fn trodden(map: &VillageMap, near: bool) -> Trodden {
    let (columns, rows) = Trodden::vertices(map);
    Trodden::of(map, &vec![near; (columns * rows) as usize])
}

fn at(tiles: &[GroundTile], i: i32, j: i32) -> Option<GroundTile> {
    tiles.iter().find(|t| t.x == i && t.y == j).copied()
}

#[test]
fn the_ground_grid_has_a_vertex_past_each_last_tile() {
    assert_eq!(Trodden::vertices(&clearing()), (4, 3));
    assert_eq!(Trodden::vertices(&ringed()), (5, 4));
}

#[test]
fn half_a_vertex_of_path_is_dirt_wherever_it_lies() {
    let map = ringed();
    let far = trodden(&map, false);
    // Three path tiles and the centre meet at (1, 1); two path tiles at (2, 1),
    // (3, 1), (1, 2) and (2, 2); only one at (3, 2); none off the grid.
    for (i, j) in [(1, 1), (2, 1), (3, 1), (1, 2), (2, 2)] {
        assert!(far.dirt(i, j), "({i}, {j})");
    }
    for (i, j) in [(0, 0), (4, 1), (3, 2), (-1, 0), (0, 9)] {
        assert!(!far.dirt(i, j), "({i}, {j})");
    }
}

#[test]
fn open_ground_is_dirt_only_near_the_walk() {
    let map = clearing();
    let far = trodden(&map, false);
    let near = trodden(&map, true);
    // Four open tiles meet at (1, 1) and two at (2, 1); no path anywhere.
    assert!(!far.dirt(1, 1));
    assert!(near.dirt(1, 1));
    assert!(near.dirt(2, 1));
    assert!(!near.dirt(0, 0));
    assert!(!near.dirt(1, 2));
}

#[test]
fn every_ground_tile_reads_its_corners() {
    let map = clearing();
    let tiles = ground_tiles(&map, &trodden(&map, true));
    let expected: Vec<GroundTile> = [(0, 0, 4), (1, 0, 12), (2, 0, 8), (0, 1, 2), (1, 1, 3), (2, 1, 1)]
        .into_iter()
        .map(|(x, y, mask)| GroundTile { x, y, mask, variant: ground_variant(x, y) })
        .collect();
    assert_eq!(tiles, expected);
    let floor = ground_tiles(&map, &trodden(&map, false));
    assert_eq!(floor.len(), 6);
    assert!(floor.iter().all(|tile| tile.mask == 0));
}

#[test]
fn neighbouring_ground_tiles_share_their_corners() {
    for map in [clearing(), ringed()] {
        let tiles = ground_tiles(&map, &trodden(&map, true));
        let bit = |tile: &GroundTile, bit: u8| tile.mask & bit != 0;
        for tile in &tiles {
            if let Some(next) = at(&tiles, tile.x + 1, tile.y) {
                assert_eq!(bit(tile, 2), bit(&next, 1));
                assert_eq!(bit(tile, 4), bit(&next, 8));
            }
            if let Some(next) = at(&tiles, tile.x, tile.y + 1) {
                assert_eq!(bit(tile, 8), bit(&next, 1));
                assert_eq!(bit(tile, 4), bit(&next, 2));
            }
            assert!(tile.variant < 4);
        }
    }
}

#[test]
fn every_drawn_tile_has_ground_over_it_and_the_depths_do_not() {
    let map = VillageMap::parse(&["######", "######", "######", "####@*"].join("\n")).expect("parses");
    let tiles = ground_tiles(&map, &trodden(&map, false));
    for y in 0..map.height() {
        for x in 0..map.width() {
            if drawn(&map, Tile::new(x, y)) {
                assert!(at(&tiles, x / 2, y / 2).is_some(), "({x}, {y})");
            }
        }
    }
    // The top left block is deep jungle: canopy, with no ground drawn over it.
    assert!(at(&tiles, 0, 0).is_none());
    assert!(at(&tiles, 2, 1).is_some());
}

#[test]
fn a_seam_shows_the_ground_it_is_a_hole_in() {
    let map = clearing();
    let near = trodden(&map, true);
    assert_eq!(underlay(&map, &near, Tile::new(1, 1)), Underlay::Dirt);
    assert_eq!(underlay(&map, &near, Tile::new(0, 0)), Underlay::Floor);
    assert_eq!(underlay(&map, &near, Tile::new(-5, -5)), Underlay::Canopy);
    assert_eq!(underlay(&map, &near, Tile::new(i32::MAX, i32::MIN)), Underlay::Canopy);
    let far = trodden(&map, false);
    assert_eq!(underlay(&map, &far, Tile::new(1, 1)), Underlay::Floor);
}

#[test]
fn the_census_counts_every_tile_once() {
    let map = ringed();
    assert_eq!(map.census(), Census { jungle: 20, path: 12, town: 2, grove: 1 });
    let open = clearing().census();
    assert_eq!(open.jungle + open.path + open.town + open.grove, 20);
}
