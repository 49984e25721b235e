use banana_monkey::controls::{
    cancel_harvest, harvest_input, respond, settlement_matches, ButtonAction, HarvestFrame,
    HarvestPhase, HeldPointer, MenuState, Panels, PointerId, SettlementSource,
};
use banana_monkey::domain::{SupportRole, UnitKind};
use banana_monkey::shop::{ShopTab, Unit};

#[test]
fn buttons_are_only_live_in_the_view_that_shows_them() {
    let hire = ButtonAction::Hire(UnitKind::Worker);
    assert!(hire.active_in(MenuState::Closed));
    assert!(!hire.active_in(MenuState::Open));
    assert!(!hire.active_in(MenuState::ConfirmRestart));
    assert!(ButtonAction::OpenMenu.active_in(MenuState::Closed));
    assert!(ButtonAction::Resume.active_in(MenuState::Open));
    assert!(!ButtonAction::Resume.active_in(MenuState::Closed));
    assert!(ButtonAction::ConfirmRestart.active_in(MenuState::ConfirmRestart));
    assert!(!ButtonAction::ConfirmRestart.active_in(MenuState::Open));
}

#[test]
fn pointer_settlement_requires_matching_active_pointer() {
    let interaction = HarvestPhase::Dragging(PointerId::Touch(7));

    assert!(settlement_matches(
        interaction,
        SettlementSource::Pointer(PointerId::Touch(7))
    ));
    assert!(!settlement_matches(
        interaction,
        SettlementSource::Pointer(PointerId::Touch(8))
    ));
    assert!(!settlement_matches(
        interaction,
        SettlementSource::Pointer(PointerId::Mouse)
    ));
}

#[test]
fn keyboard_settlement_only_matches_keyboard_flight() {
    assert!(settlement_matches(
        HarvestPhase::Keyboard,
        SettlementSource::Keyboard
    ));
    assert!(!settlement_matches(
        HarvestPhase::Idle,
        SettlementSource::Keyboard
    ));
}

#[test]
fn cancel_harvest_clears_interaction_and_pending_settlement() {
    let mut interaction = HarvestPhase::Keyboard;
    let mut pending = Some(SettlementSource::Keyboard);

    cancel_harvest(&mut interaction, &mut pending);

    assert_eq!(interaction, HarvestPhase::Idle);
    assert_eq!(pending, None);
}

// ── further cases ──

fn closed() -> Panels {
    Panels {
        menu: MenuState::Closed,
        tab: ShopTab::Monkeys,
        info: None,
    }
}

#[test]
fn escape_opens_the_menu_and_steps_back_out_of_it() {
    let (opened, asks) = respond(closed(), true, false, false, &vec![], true);
    assert_eq!(opened.menu, MenuState::Open);
    assert!(asks.cancel_harvest, "an open menu covers the board");

    let (shut, asks) = respond(opened, true, false, false, &vec![], true);
    assert_eq!(shut.menu, MenuState::Closed);
    assert!(!asks.cancel_harvest);

    let confirming = Panels {
        menu: MenuState::ConfirmRestart,
        ..closed()
    };
    assert_eq!(respond(confirming, true, false, false, &vec![], true).0.menu, MenuState::Open);
}

#[test]
fn escape_closes_an_open_panel_before_it_touches_the_menu() {
    let panel = Panels {
        info: Some(Unit::Worker),
        ..closed()
    };
    let (after, _) = respond(panel, true, false, false, &vec![], true);
    assert_eq!(after.info, None);
    assert_eq!(after.menu, MenuState::Closed);
}

#[test]
fn one_hire_per_debounce_and_only_on_the_monkeys_tab() {
    let presses = vec![
        ButtonAction::Hire(UnitKind::Worker),
        ButtonAction::Hire(UnitKind::Cart),
    ];
    let (_, asks) = respond(closed(), false, false, false, &presses, true);
    assert_eq!(asks.hires, vec![UnitKind::Worker]);

    let (_, asks) = respond(closed(), false, false, false, &presses, false);
    assert!(asks.hires.is_empty());

    let buildings = Panels {
        tab: ShopTab::Buildings,
        ..closed()
    };
    assert!(respond(buildings, false, false, false, &presses, true).1.hires.is_empty());

    let with_panel = Panels {
        info: Some(Unit::Cart),
        ..closed()
    };
    assert!(respond(with_panel, false, false, false, &presses, true).1.hires.is_empty());
}

#[test]
fn arrows_step_the_tab_and_close_the_panel() {
    let panel = Panels {
        info: Some(Unit::Support(SupportRole::Chef)),
        ..closed()
    };
    let (after, _) = respond(panel, false, false, true, &vec![], true);
    assert_eq!(after.tab, ShopTab::Buildings);
    assert_eq!(after.info, None);
    let (after, _) = respond(closed(), false, true, false, &vec![], true);
    assert_eq!(after.tab, ShopTab::Research);
    // Arrows do nothing behind an open menu.
    let open = Panels {
        menu: MenuState::Open,
        ..closed()
    };
    assert_eq!(respond(open, false, true, true, &vec![], true).0.tab, ShopTab::Monkeys);
}

#[test]
fn an_info_button_toggles_its_own_panel() {
    let info = vec![ButtonAction::Info(Unit::Worker)];
    let (opened, _) = respond(closed(), false, false, false, &info, true);
    assert_eq!(opened.info, Some(Unit::Worker));
    let (shut, _) = respond(opened, false, false, false, &info, true);
    assert_eq!(shut.info, None);
    let other = vec![ButtonAction::Info(Unit::Cart)];
    assert_eq!(respond(opened, false, false, false, &other, true).0.info, Some(Unit::Cart));
}

#[test]
fn a_restart_needs_confirming_and_can_be_called_off() {
    let open = Panels {
        menu: MenuState::Open,
        ..closed()
    };
    let (asking, asks) = respond(open, false, false, false, &vec![ButtonAction::Restart], true);
    assert_eq!(asking.menu, MenuState::ConfirmRestart);
    assert!(!asks.restart);

    let (back, asks) = respond(asking, false, false, false, &vec![ButtonAction::CancelRestart], true);
    assert_eq!(back.menu, MenuState::Open);
    assert!(!asks.restart);

    let (done, asks) = respond(asking, false, false, false, &vec![ButtonAction::ConfirmRestart], true);
    assert_eq!(done.menu, MenuState::Closed);
    assert!(asks.restart && asks.cancel_harvest);

    // A confirm pressed while the menu is merely open does nothing.
    let (same, asks) = respond(open, false, false, false, &vec![ButtonAction::ConfirmRestart], true);
    assert_eq!(same.menu, MenuState::Open);
    assert!(!asks.restart);
}

#[test]
fn the_menu_buttons_open_resume_and_recentre() {
    let (opened, _) = respond(closed(), false, false, false, &vec![ButtonAction::OpenMenu], true);
    assert_eq!(opened.menu, MenuState::Open);
    let (resumed, asks) = respond(opened, false, false, false, &vec![ButtonAction::Resume], true);
    assert_eq!(resumed.menu, MenuState::Closed);
    assert!(!asks.cancel_harvest);
    let (_, asks) = respond(closed(), false, false, false, &vec![ButtonAction::Recentre], true);
    assert!(asks.recentre);
    let (_, asks) = respond(opened, false, false, false, &vec![ButtonAction::Diagnostics], true);
    assert!(asks.diagnostics);
}

fn quiet() -> HarvestFrame {
    HarvestFrame {
        diagnostics_open: false,
        menu_closed: true,
        touch_starts: vec![],
        mouse_start: false,
        keyboard_start: false,
        hire_key: false,
        held: HeldPointer::Held,
    }
}

#[test]
fn the_lowest_touch_on_the_tree_takes_the_banana() {
    let mut phase = HarvestPhase::Idle;
    let mut pending = None;
    let frame = HarvestFrame {
        touch_starts: vec![(9, true), (4, false), (6, true)],
        mouse_start: true,
        ..quiet()
    };
    assert!(!harvest_input(&mut phase, &mut pending, &mut vec![], &frame));
    assert_eq!(phase, HarvestPhase::Dragging(PointerId::Touch(6)));

    let mut phase = HarvestPhase::Idle;
    let frame = HarvestFrame {
        touch_starts: vec![(4, false)],
        mouse_start: true,
        keyboard_start: true,
        ..quiet()
    };
    harvest_input(&mut phase, &mut pending, &mut vec![], &frame);
    assert_eq!(phase, HarvestPhase::Dragging(PointerId::Mouse));

    let mut phase = HarvestPhase::Idle;
    let frame = HarvestFrame {
        keyboard_start: true,
        ..quiet()
    };
    harvest_input(&mut phase, &mut pending, &mut vec![], &frame);
    assert_eq!(phase, HarvestPhase::Keyboard);
}

#[test]
fn a_drop_on_the_deposit_waits_to_settle_and_any_other_drop_is_dropped() {
    let mut phase = HarvestPhase::Dragging(PointerId::Touch(3));
    let mut pending = None;
    let drop = HarvestFrame {
        held: HeldPointer::Released { on_deposit: true },
        ..quiet()
    };
    assert!(!harvest_input(&mut phase, &mut pending, &mut vec![], &drop));
    assert_eq!(pending, Some(SettlementSource::Pointer(PointerId::Touch(3))));
    assert!(settlement_matches(phase, pending.unwrap()));

    let mut phase = HarvestPhase::Dragging(PointerId::Mouse);
    let mut pending = None;
    let miss = HarvestFrame {
        held: HeldPointer::Released { on_deposit: false },
        ..quiet()
    };
    assert!(harvest_input(&mut phase, &mut pending, &mut vec![], &miss));
    assert_eq!(phase, HarvestPhase::Idle);
}

#[test]
fn a_lost_touch_is_waited_for_but_a_lost_mouse_is_not() {
    let missing = HarvestFrame {
        held: HeldPointer::Missing,
        ..quiet()
    };
    let mut phase = HarvestPhase::Dragging(PointerId::Touch(1));
    let mut pending = None;
    assert!(!harvest_input(&mut phase, &mut pending, &mut vec![], &missing));
    assert_eq!(phase, HarvestPhase::Dragging(PointerId::Touch(1)));

    let mut phase = HarvestPhase::Dragging(PointerId::Mouse);
    assert!(harvest_input(&mut phase, &mut pending, &mut vec![], &missing));
    assert_eq!(phase, HarvestPhase::Idle);
}

#[test]
fn a_covered_board_drops_the_harvest_and_a_menu_freezes_it() {
    let mut phase = HarvestPhase::Keyboard;
    let mut pending = Some(SettlementSource::Keyboard);
    let covered = HarvestFrame {
        diagnostics_open: true,
        ..quiet()
    };
    assert!(harvest_input(&mut phase, &mut pending, &mut vec![], &covered));
    assert_eq!((phase, pending), (HarvestPhase::Idle, None));

    let mut phase = HarvestPhase::Dragging(PointerId::Mouse);
    let menu = HarvestFrame {
        menu_closed: false,
        held: HeldPointer::Cancelled,
        ..quiet()
    };
    assert!(!harvest_input(&mut phase, &mut pending, &mut vec![], &menu));
    assert_eq!(phase, HarvestPhase::Dragging(PointerId::Mouse));
}

#[test]
fn the_hire_key_hires_a_worker_while_the_board_is_uncovered() {
    let mut phase = HarvestPhase::Idle;
    let mut pending = None;
    let mut hires = vec![UnitKind::Cart];
    let press = HarvestFrame { hire_key: true, ..quiet() };
    assert!(!harvest_input(&mut phase, &mut pending, &mut hires, &press));
    assert_eq!(hires, vec![UnitKind::Cart, UnitKind::Worker]);

    let mut hires = vec![];
    let in_menu = HarvestFrame { hire_key: true, menu_closed: false, ..quiet() };
    harvest_input(&mut phase, &mut pending, &mut hires, &in_menu);
    let covered = HarvestFrame { hire_key: true, diagnostics_open: true, ..quiet() };
    harvest_input(&mut phase, &mut pending, &mut hires, &covered);
    assert!(hires.is_empty());
}
