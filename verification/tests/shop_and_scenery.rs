use banana_monkey::domain::{Carts, Staff, SupportRole, UnitKind, Workforce};
use banana_monkey::map::{Tile, VillageMap};
use banana_monkey::scenery::{drawn, ground_variant, planting, scenery_tiles, tile_touches_open, wall_tiles};
use banana_monkey::shop::{ButtonLook, Pointer, ShopTab, Swatch, Unit, UnitStat};

#[test]
fn tabs_cycle_in_both_directions() {
    assert_eq!(ShopTab::Monkeys.next(), ShopTab::Buildings);
    assert_eq!(ShopTab::Buildings.next(), ShopTab::Research);
    assert_eq!(ShopTab::Research.next(), ShopTab::Monkeys);
    assert_eq!(ShopTab::Monkeys.previous(), ShopTab::Research);
    assert_eq!(ShopTab::Research.previous(), ShopTab::Buildings);
    assert_eq!(ShopTab::Buildings.previous(), ShopTab::Monkeys);
}

#[test]
fn a_step_right_undoes_a_step_left() {
    for tab in [ShopTab::Monkeys, ShopTab::Buildings, ShopTab::Research] {
        assert_eq!(tab.next().previous(), tab);
        assert_eq!(tab.previous().next(), tab);
        assert_eq!(tab.next().next().next(), tab);
    }
    assert_eq!(ShopTab::default(), ShopTab::Monkeys);
    assert_eq!(ShopTab::Buildings.label(), "BUILDINGS");
}

#[test]
fn every_row_names_its_unit_and_sells_it() {
    assert_eq!(Unit::Worker.name(), "WORKER");
    assert_eq!(Unit::Support(SupportRole::Chef).name(), "CHEF");
    assert_eq!(Unit::Support(SupportRole::Technologist).name(), "TECHNOLOGIST");
    assert_eq!(Unit::Cart.name(), "CART");
    assert_eq!(Unit::Cart.kind(), UnitKind::Cart);
    assert_eq!(
        Unit::Support(SupportRole::Unpacker).kind(),
        UnitKind::Support(SupportRole::Unpacker)
    );
    assert_eq!(Unit::Support(SupportRole::Unpacker).description(), "Unloads bananas 20% faster.");
}

fn village() -> VillageMap {
    VillageMap::parse(&["#######", "#######", "##@.*##", "#######", "#######"].join("\n"))
        .expect("parses")
}

#[test]
fn the_wall_is_the_jungle_that_touches_open_ground() {
    let map = village();
    let walls = wall_tiles(&map);
    // Every jungle tile in the 5x3 block round the three open tiles, in reading order.
    let mut expected = Vec::new();
    for y in 1..4 {
        for x in 1..6 {
            if !(y == 2 && (2..5).contains(&x)) {
                expected.push(Tile::new(x, y));
            }
        }
    }
    assert_eq!(walls, expected);
    assert!(tile_touches_open(&map, Tile::new(1, 1)));
    assert!(!tile_touches_open(&map, Tile::new(0, 0)));
    assert!(drawn(&map, Tile::new(3, 2)));
    assert!(drawn(&map, Tile::new(5, 3)));
    assert!(!drawn(&map, Tile::new(6, 4)));
}

#[test]
fn scenery_is_the_wall_and_then_the_staggered_depths() {
    let map = village();
    let tiles = scenery_tiles(&map);
    let walls = wall_tiles(&map);
    assert_eq!(&tiles[..walls.len()], &walls[..]);
    // Row 0 from column 0 and row 3 from column 1, every third column, deep
    // jungle only: row 3 starts beside the open ground, so nothing of it is deep.
    assert_eq!(
        &tiles[walls.len()..],
        &[Tile::new(0, 0), Tile::new(3, 0), Tile::new(6, 0)][..]
    );
}

#[test]
fn the_planting_hashes_are_fixed() {
    assert_eq!(planting(Tile::new(0, 0)), Some(0));
    assert_eq!(ground_variant(0, 0), 0);
    // Same tile, same answer, every time.
    assert_eq!(planting(Tile::new(12, 40)), planting(Tile::new(12, 40)));
    let planted = (0..100).filter(|x| planting(Tile::new(*x, 7)).is_some()).count();
    assert!(planted > 20 && planted < 60, "{planted}");
    assert!((0..100).all(|x| ground_variant(x, 3) <= 3));
}

#[test]
fn the_cart_row_is_locked_until_the_first_research_level() {
    assert!(Unit::Cart.locked(0));
    assert!(!Unit::Cart.locked(1));
    assert!(!Unit::Worker.locked(0));
    assert!(Unit::Cart.plaque_shown(0));
    assert!(!Unit::Cart.plaque_shown(3));
    assert_eq!(
        Unit::Cart.button_look(0, true, Pointer::Hovered),
        ButtonLook { fill: Swatch::Card, edge: Swatch::Label, shown: false }
    );
    assert_eq!(Unit::Cart.field_tone(UnitStat::Price, 0, true, true, false), Swatch::Label);
}

#[test]
fn a_row_is_coloured_by_what_the_player_can_do_with_it() {
    let worker = Unit::Worker;
    assert_eq!(worker.field_tone(UnitStat::Price, 0, true, true, false), Swatch::Soil);
    assert_eq!(worker.field_tone(UnitStat::Price, 0, true, false, false), Swatch::Gold);
    assert_eq!(worker.field_tone(UnitStat::Price, 0, false, true, false), Swatch::Label);
    assert_eq!(worker.field_tone(UnitStat::Gain, 0, true, false, true), Swatch::BrownLight);
    assert_eq!(worker.field_tone(UnitStat::Gain, 0, true, false, false), Swatch::Ink);
    assert_eq!(worker.field_tone(UnitStat::Owned, 0, true, true, true), Swatch::Ink);
    // A technologist's gain is its wage: never drawn as a loss.
    let technologist = Unit::Support(SupportRole::Technologist);
    assert_eq!(technologist.field_tone(UnitStat::Gain, 0, false, false, true), Swatch::Gold);
    assert_eq!(
        worker.button_look(0, true, Pointer::Pressed),
        ButtonLook { fill: Swatch::Gold, edge: Swatch::Cream, shown: true }
    );
    assert_eq!(
        worker.button_look(0, true, Pointer::Away),
        ButtonLook { fill: Swatch::BrownLight, edge: Swatch::Gold, shown: true }
    );
    assert_eq!(
        worker.button_look(0, false, Pointer::Hovered),
        ButtonLook { fill: Swatch::Card, edge: Swatch::Label, shown: true }
    );
}

#[test]
fn a_row_counts_what_the_player_owns() {
    let workforce = Workforce::from_saved(4).unwrap();
    let staff = Staff::from_saved(2, 3, 1).unwrap();
    let carts = Carts::from_saved(2, 6).unwrap();
    assert_eq!(Unit::Worker.owned(workforce, staff, carts), 4);
    assert_eq!(Unit::Support(SupportRole::Unpacker).owned(workforce, staff, carts), 3);
    assert_eq!(Unit::Support(SupportRole::Technologist).owned(workforce, staff, carts), 1);
    assert_eq!(Unit::Cart.owned(workforce, staff, carts), 2);
}
