use banana_monkey::map::{MapError, Terrain, Tile, VillageMap};

const TILE_METRES: f64 = 2.0;

fn map(rows: &[&str]) -> VillageMap {
    VillageMap::parse(&rows.join("\n")).expect("the test map parses")
}

/// The walk from the town centre to the map's one banana node.
fn reference_route(map: &VillageMap) -> Vec<Tile> {
    map.route(map.town_centre(), map.nodes()[0]).expect("reachable")
}

fn centre(tile: Tile) -> (f64, f64) {
    (
        (f64::from(tile.x) + 0.5) * TILE_METRES,
        (f64::from(tile.y) + 0.5) * TILE_METRES,
    )
}

fn length(corners: &[Tile]) -> f64 {
    corners
        .windows(2)
        .map(|leg| {
            let (a, b) = (centre(leg[0]), centre(leg[1]));
            ((b.0 - a.0).powi(2) + (b.1 - a.1).powi(2)).sqrt()
        })
        .sum()
}

/// Every point a walk passes through, sampled finely enough that a leg
/// clipping one tile of jungle cannot slip between samples.
fn walk_stays_on_the_map(map: &VillageMap, corners: &[Tile]) -> bool {
    corners.windows(2).all(|leg| {
        let (a, b) = (centre(leg[0]), centre(leg[1]));
        let distance = ((b.0 - a.0).powi(2) + (b.1 - a.1).powi(2)).sqrt();
        let steps = (distance / (TILE_METRES * 0.1)).ceil().max(1.0) as u32;
        (0..=steps).all(|step| {
            let t = f64::from(step) / f64::from(steps);
            let at = (a.0 + (b.0 - a.0) * t, a.1 + (b.1 - a.1) * t);
            let tile = Tile::new(
                (at.0 / TILE_METRES).floor() as i32,
                (at.1 / TILE_METRES).floor() as i32,
            );
            map.terrain(tile).passable()
        })
    })
}

#[test]
fn string_pulling_straightens_an_open_diagonal() {
    let open = map(&["@.....", "......", ".....*"]);
    let route = reference_route(&open);
    assert_eq!(route.len(), 2, "open ground needs no corners");
    let expected = (5.0f64.powi(2) + 2.0f64.powi(2)).sqrt() * TILE_METRES;
    assert!((length(&route) - expected).abs() < 1e-9, "{}", length(&route));
}

#[test]
fn jungle_is_a_hard_barrier() {
    let walled = map(&[
        "#########",
        "#.......#",
        "#.@.#.*.#",
        "#...#...#",
        "#.......#",
        "#########",
    ]);
    let route = reference_route(&walled);
    let straight = 4.0 * TILE_METRES;
    assert!(
        length(&route) > straight,
        "a walk through the wall would be {straight} m, got {}",
        length(&route)
    );
    assert!(route.len() > 2, "the walk has to turn to get round");
    assert!(walk_stays_on_the_map(&walled, &route));
}

#[test]
fn a_diagonal_never_squeezes_between_two_blocked_corners() {
    assert_eq!(
        VillageMap::parse("####\n#@##\n##*#\n####").err(),
        Some(MapError::Unreachable(Tile::new(2, 2)))
    );
    let elbow = map(&["####", "#@.#", "##*#", "####"]);
    assert_eq!(length(&reference_route(&elbow)), 2.0 * TILE_METRES);
}

#[test]
fn routes_are_deterministic() {
    let symmetric = map(&["#######", "#.....#", "#.@#*.#", "#.....#", "#######"]);
    let first = reference_route(&symmetric);
    for _ in 0..8 {
        assert_eq!(reference_route(&symmetric), first);
    }
}

#[test]
fn an_unauthorable_map_says_why() {
    assert_eq!(VillageMap::parse("").err(), Some(MapError::Empty));
    assert_eq!(
        VillageMap::parse("@*\n#").err(),
        Some(MapError::Ragged { row: 1 })
    );
    assert_eq!(
        VillageMap::parse("@?*").err(),
        Some(MapError::Unknown {
            row: 0,
            column: 1,
            found: '?'
        })
    );
    assert_eq!(VillageMap::parse("..*").err(), Some(MapError::NoTownCentre));
    assert_eq!(VillageMap::parse("@..").err(), Some(MapError::NoGrove));
    assert_eq!(VillageMap::parse("@*@").err(), Some(MapError::TwoTownCentres));
    assert_eq!(
        VillageMap::parse("@#*").err(),
        Some(MapError::Unreachable(Tile::new(2, 0)))
    );
    assert_eq!(VillageMap::parse("@.T").err(), Some(MapError::NoGrove));
}

// ── further cases ──

#[test]
fn a_route_off_the_walkable_map_is_no_route_on_a_small_village() {
    let village = map(&["#####", "#@.*#", "#####"]);
    let centre = village.town_centre();
    assert!(village.route(centre, Tile::new(0, 0)).is_none());
    assert!(village.route(Tile::new(0, 0), centre).is_none());
    assert!(village.route(centre, Tile::new(500, 500)).is_none());
    assert!(village.route(centre, Tile::new(-1, -1)).is_none());
}

#[test]
fn a_walk_to_where_you_stand_is_one_tile_and_no_distance() {
    let village = map(&["@.*"]);
    let route = village
        .route(village.town_centre(), village.town_centre())
        .expect("standing still is a route");
    assert_eq!(route, vec![village.town_centre()]);
    assert_eq!(length(&route), 0.0);
}

#[test]
fn a_parsed_map_reads_back_its_terrain_and_features() {
    let village = map(&["#+..", "#@T.", "#.o*"]);
    assert_eq!((village.width(), village.height()), (4, 3));
    assert_eq!(village.town_centre(), Tile::new(1, 1));
    assert_eq!(village.nodes(), &[Tile::new(3, 2)]);
    assert_eq!(village.home_trees(), &[Tile::new(2, 1)]);
    assert_eq!(village.terrain(Tile::new(0, 0)), Terrain::Jungle);
    assert_eq!(village.terrain(Tile::new(1, 1)), Terrain::Town);
    assert_eq!(village.terrain(Tile::new(1, 0)), Terrain::Path);
    assert_eq!(village.terrain(Tile::new(3, 2)), Terrain::Grove);
    assert_eq!(village.terrain(Tile::new(2, 2)), Terrain::Grove);
    assert_eq!(village.terrain(Tile::new(3, 0)), Terrain::Town);
    // Off the map is jungle in every direction.
    assert_eq!(village.terrain(Tile::new(4, 0)), Terrain::Jungle);
    assert_eq!(village.terrain(Tile::new(-1, 1)), Terrain::Jungle);
    assert_eq!(village.terrain(Tile::new(1, -1)), Terrain::Jungle);
    assert!(!Terrain::Jungle.passable());
    assert!(Terrain::Path.passable() && Terrain::Town.passable() && Terrain::Grove.passable());
}

#[test]
fn nodes_come_in_reading_order_and_carriage_returns_are_ignored() {
    let village = VillageMap::parse("*.@\r\n..*\r\n").expect("parses");
    assert_eq!(village.nodes(), &[Tile::new(0, 0), Tile::new(2, 1)]);
    assert_eq!(village.width(), 3);
    assert_eq!(village.height(), 2);
}

#[test]
fn an_orthogonal_walk_costs_one_step_a_tile_and_a_diagonal_more() {
    let village = map(&["@..", "...", "..*"]);
    let walk = village
        .search(village.town_centre(), village.nodes()[0])
        .expect("reachable");
    // The cheapest grid walk is the two-step diagonal.
    assert_eq!(walk, vec![Tile::new(0, 0), Tile::new(1, 1), Tile::new(2, 2)]);
}

#[test]
fn a_corridor_route_keeps_the_corner_it_needs() {
    let village = map(&["@..#", "##.#", "##.*"]);
    let route = reference_route(&village);
    assert_eq!(route.first(), Some(&Tile::new(0, 0)));
    assert_eq!(route.last(), Some(&Tile::new(3, 2)));
    assert!(route.len() >= 3);
    assert!(walk_stays_on_the_map(&village, &route));
}
