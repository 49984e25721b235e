//! What the player's input decides: which buttons are live, what a frame of
//! presses does to the menu, the shop tab and the information panel, and
//! whether a dropped banana settles the harvest in flight.
//!
//! Hit tests, timers and drawing belong to the presentation; it hands these
//! functions their outcome as plain flags and carries out what comes back.

use vstd::prelude::*;
use crate::domain::UnitKind;
use crate::shop::{tab_after, ShopTab, Unit};

verus! {

// ──────────────────────────────────────────────────────────────── the menu

#[derive(Debug, Clone, Copy, PartialEq, Eq, Structural)]
pub enum MenuState {
    Closed,
    Open,
    ConfirmRestart,
}

impl Default for MenuState {
    fn default() -> (state: Self)
        ensures
            state == MenuState::Closed,
    {
        MenuState::Closed
    }
}

/// A button, by what pressing it does.
#[derive(Debug, Clone, Copy, PartialEq, Eq, Structural)]
pub enum ButtonAction {
    OpenMenu,
    /// Take the camera back to the opening view.
    Recentre,
    Hire(UnitKind),
    Info(Unit),
    PreviousShopTab,
    NextShopTab,
    Resume,
    /// Only the web build shows this one.
    Diagnostics,
    Restart,
    ConfirmRestart,
    CancelRestart,
}

/// The one menu state whose view shows a button.
pub open spec fn shown_in(action: ButtonAction) -> MenuState {
    match action {
        ButtonAction::OpenMenu
        | ButtonAction::Recentre
        | ButtonAction::Hire(_)
        | ButtonAction::Info(_)
        | ButtonAction::PreviousShopTab
        | ButtonAction::NextShopTab => MenuState::Closed,
        ButtonAction::Resume | ButtonAction::Diagnostics | ButtonAction::Restart => MenuState::Open,
        ButtonAction::ConfirmRestart | ButtonAction::CancelRestart => MenuState::ConfirmRestart,
    }
}

impl ButtonAction {
    /// Which menu state the button is live in: a tap on the menu's scrim must
    /// never reach the shop card underneath it.
    pub fn active_in(self, menu: MenuState) -> (live: bool)
        ensures
            live == (menu == shown_in(self)),
    {
        match self {
            ButtonAction::OpenMenu
            | ButtonAction::Recentre
            | ButtonAction::Hire(_)
            | ButtonAction::Info(_)
            | ButtonAction::PreviousShopTab
            | ButtonAction::NextShopTab => menu == MenuState::Closed,
            ButtonAction::Resume | ButtonAction::Diagnostics | ButtonAction::Restart => menu
                == MenuState::Open,
            ButtonAction::ConfirmRestart | ButtonAction::CancelRestart => menu
                == MenuState::ConfirmRestart,
        }
    }
}

/// Every button is live in exactly one menu state.
pub proof fn lemma_a_button_is_live_in_one_view(action: ButtonAction, a: MenuState, b: MenuState)
    ensures
        a == shown_in(action) && b == shown_in(action) ==> a == b,
{
}

/// Where escape takes the menu: open from closed, and back one step otherwise.
pub open spec fn escaped(menu: MenuState) -> MenuState {
    match menu {
        MenuState::Closed => MenuState::Open,
        MenuState::Open => MenuState::Closed,
        MenuState::ConfirmRestart => MenuState::Open,
    }
}

/// The menu, the shop tab and the information panel.
#[derive(Debug, Clone, Copy, PartialEq, Eq, Structural)]
pub struct Panels {
    pub menu: MenuState,
    pub tab: ShopTab,
    pub info: Option<Unit>,
}

/// What one frame of input asks of the rest of the game.
#[derive(Debug, Clone, PartialEq, Eq)]
pub struct MenuRequests {
    /// Units to hire, in the order asked for.
    pub hires: Vec<UnitKind>,
    pub recentre: bool,
    pub restart: bool,
    pub diagnostics: bool,
    /// Drop the harvest in flight: the board is about to be covered.
    pub cancel_harvest: bool,
}

/// A frame's presses, part way through: the tab and panel as they stand, the
/// menu state asked for last, and the requests so far.
pub struct Pressing {
    pub tab: ShopTab,
    pub info: Option<Unit>,
    pub requested: Option<MenuState>,
    pub hires: Seq<UnitKind>,
    pub recentre: bool,
    pub restart: bool,
    pub diagnostics: bool,
    pub cancel: bool,
    pub hire_ready: bool,
}

/// One press, against the menu state the frame began in. A button acts only
/// in the view that shows it; a hire also needs the monkeys tab, no panel
/// open and the debounce clear, and spends the debounce.
pub open spec fn pressed(menu: MenuState, p: Pressing, action: ButtonAction) -> Pressing {
    if menu != shown_in(action) {
        p
    } else {
        match action {
            ButtonAction::OpenMenu => Pressing { requested: Some(MenuState::Open), ..p },
            ButtonAction::Recentre => Pressing { recentre: true, ..p },
            ButtonAction::Hire(kind) => if p.tab == ShopTab::Monkeys && p.info is None && p.hire_ready {
                Pressing { hires: p.hires.push(kind), hire_ready: false, ..p }
            } else {
                p
            },
            ButtonAction::PreviousShopTab => {
                let before = if p.tab == ShopTab::Monkeys {
                    ShopTab::Research
                } else if p.tab == ShopTab::Buildings {
                    ShopTab::Monkeys
                } else {
                    ShopTab::Buildings
                };
                Pressing { tab: before, info: None, ..p }
            },
            ButtonAction::NextShopTab => Pressing { tab: tab_after(p.tab), info: None, ..p },
            ButtonAction::Info(unit) => if p.tab == ShopTab::Monkeys {
                Pressing { info: if p.info == Some(unit) { None } else { Some(unit) }, ..p }
            } else {
                p
            },
            ButtonAction::Resume => Pressing { requested: Some(MenuState::Closed), ..p },
            ButtonAction::Diagnostics => Pressing { diagnostics: true, ..p },
            ButtonAction::Restart => Pressing { requested: Some(MenuState::ConfirmRestart), ..p },
            ButtonAction::ConfirmRestart => Pressing {
                cancel: true,
                restart: true,
                requested: Some(MenuState::Closed),
                ..p
            },
            ButtonAction::CancelRestart => Pressing { requested: Some(MenuState::Open), ..p },
        }
    }
}

/// The first `k` presses of a frame, in order.
pub open spec fn pressed_all(
    menu: MenuState,
    start: Pressing,
    actions: Seq<ButtonAction>,
    k: int,
) -> Pressing
    decreases k,
{
    if k <= 0 {
        start
    } else {
        pressed(menu, pressed_all(menu, start, actions, k - 1), actions[k - 1])
    }
}

/// The frame's presses, arrow keys first: left and right step the shop tab
/// while the menu is closed.
pub open spec fn frame_actions(
    menu: MenuState,
    left: bool,
    right: bool,
    presses: Seq<ButtonAction>,
) -> Seq<ButtonAction> {
    let arrows_left = if menu == MenuState::Closed && left {
        seq![ButtonAction::PreviousShopTab]
    } else {
        seq![]
    };
    let arrows_right = if menu == MenuState::Closed && right {
        seq![ButtonAction::NextShopTab]
    } else {
        seq![]
    };
    arrows_left + arrows_right + presses
}

/// Where a frame starts: escape closes an open panel first, and otherwise
/// steps the menu.
pub open spec fn frame_start(panels: Panels, escape: bool, hire_ready: bool) -> Pressing {
    Pressing {
        tab: panels.tab,
        info: if escape { None } else { panels.info },
        requested: if escape && panels.info is None {
            Some(escaped(panels.menu))
        } else {
            None
        },
        hires: seq![],
        recentre: false,
        restart: false,
        diagnostics: false,
        cancel: false,
        hire_ready,
    }
}

/// The frame's outcome: the menu moves to the last state asked for, and any
/// state other than closed covers the board, which drops the harvest.
pub open spec fn frame_outcome(
    panels: Panels,
    escape: bool,
    left: bool,
    right: bool,
    presses: Seq<ButtonAction>,
    hire_ready: bool,
) -> Pressing {
    let actions = frame_actions(panels.menu, left, right, presses);
    let done = pressed_all(
        panels.menu,
        frame_start(panels, escape, hire_ready),
        actions,
        actions.len() as int,
    );
    match done.requested {
        Some(next) => Pressing { cancel: done.cancel || next != MenuState::Closed, ..done },
        None => done,
    }
}

fn previous_tab(tab: ShopTab) -> (before: ShopTab)
    ensures
        before == (if tab == ShopTab::Monkeys {
            ShopTab::Research
        } else if tab == ShopTab::Buildings {
            ShopTab::Monkeys
        } else {
            ShopTab::Buildings
        }),
{
    tab.previous()
}

/// A frame of menu input: whether escape, left and right were pressed, the
/// buttons pressed in order, and whether the hire debounce is clear. Returns
/// the panels after the frame and what it asks of the game.
pub fn respond(
    panels: Panels,
    escape: bool,
    left: bool,
    right: bool,
    presses: &Vec<ButtonAction>,
    hire_ready: bool,
) -> (outcome: (Panels, MenuRequests))
    ensures
        ({
            let expected = frame_outcome(panels, escape, left, right, presses@, hire_ready);
            &&& outcome.0.tab == expected.tab
            &&& outcome.0.info == expected.info
            &&& outcome.0.menu == (match expected.requested {
                Some(next) => next,
                None => panels.menu,
            })
            &&& outcome.1.hires@ == expected.hires
            &&& outcome.1.recentre == expected.recentre
            &&& outcome.1.restart == expected.restart
            &&& outcome.1.diagnostics == expected.diagnostics
            &&& outcome.1.cancel_harvest == expected.cancel
        }),
{
    let menu = panels.menu;
    let mut actions: Vec<ButtonAction> = Vec::new();
    if menu == MenuState::Closed && left {
        actions.push(ButtonAction::PreviousShopTab);
    }
    if menu == MenuState::Closed && right {
        actions.push(ButtonAction::NextShopTab);
    }
    let mut i: usize = 0;
    let ghost arrows = actions@;
    while i < presses.len()
        invariant
            i <= presses@.len(),
            actions@ == arrows + presses@.subrange(0, i as int),
        decreases presses@.len() - i,
    {
        actions.push(presses[i]);
        i = i + 1;
        proof {
            assert(actions@ =~= arrows + presses@.subrange(0, i as int));
        }
    }
    proof {
        assert(actions@ =~= frame_actions(menu, left, right, presses@));
    }
    let mut tab = panels.tab;
    let mut info = if escape {
        None
    } else {
        panels.info
    };
    let mut requested = if escape && panels.info.is_none() {
        Some(
            match menu {
                MenuState::Closed => MenuState::Open,
                MenuState::Open => MenuState::Closed,
                MenuState::ConfirmRestart => MenuState::Open,
            },
        )
    } else {
        None
    };
    let mut hires: Vec<UnitKind> = Vec::new();
    let mut recentre = false;
    let mut restart = false;
    let mut diagnostics = false;
    let mut cancel = false;
    let mut ready = hire_ready;
    let ghost start = frame_start(panels, escape, hire_ready);
    let mut k: usize = 0;
    while k < actions.len()
        invariant
            k <= actions@.len(),
            ({
                let p = pressed_all(menu, start, actions@, k as int);
                &&& tab == p.tab
                &&& info == p.info
                &&& requested == p.requested
                &&& hires@ == p.hires
                &&& recentre == p.recentre
                &&& restart == p.restart
                &&& diagnostics == p.diagnostics
                &&& cancel == p.cancel
                &&& ready == p.hire_ready
            }),
        decreases actions@.len() - k,
    {
        let action = actions[k];
        if action.active_in(menu) {
            match action {
                ButtonAction::OpenMenu => {
                    requested = Some(MenuState::Open);
                },
                ButtonAction::Recentre => {
                    recentre = true;
                },
                ButtonAction::Hire(kind) => {
                    if tab == ShopTab::Monkeys && info.is_none() && ready {
                        hires.push(kind);
                        ready = false;
                    }
                },
                ButtonAction::PreviousShopTab => {
                    tab = previous_tab(tab);
                    info = None;
                },
                ButtonAction::NextShopTab => {
                    tab = tab.next();
                    info = None;
                },
                ButtonAction::Info(unit) => {
                    if tab == ShopTab::Monkeys {
                        info = match info {
                            Some(open) => if open == unit {
                                None
                            } else {
                                Some(unit)
                            },
                            None => Some(unit),
                        };
                    }
                },
                ButtonAction::Resume => {
                    requested = Some(MenuState::Closed);
                },
                ButtonAction::Diagnostics => {
                    diagnostics = true;
                },
                ButtonAction::Restart => {
                    requested = Some(MenuState::ConfirmRestart);
                },
                ButtonAction::ConfirmRestart => {
                    cancel = true;
                    restart = true;
                    requested = Some(MenuState::Closed);
                },
                ButtonAction::CancelRestart => {
                    requested = Some(MenuState::Open);
                },
            }
        }
        k = k + 1;
    }
    let menu_after = match requested {
        Some(next) => {
            if next != MenuState::Closed {
                cancel = true;
            }
            next
        },
        None => menu,
    };
    (
        Panels { menu: menu_after, tab, info },
        MenuRequests { hires, recentre, restart, diagnostics, cancel_harvest: cancel },
    )
}

// ───────────────────────────────────────────────────────────── the harvest

/// Whose hand a drag is in.
#[derive(Debug, Clone, Copy, PartialEq, Eq, Structural)]
pub enum PointerId {
    Mouse,
    Touch(u64),
}

/// The hand-harvest in flight, as far as settling it is concerned.
#[derive(Debug, Clone, Copy, PartialEq, Eq, Structural)]
pub enum HarvestPhase {
    Idle,
    Dragging(PointerId),
    Keyboard,
}

/// Where a drop that would settle the harvest came from.
#[derive(Debug, Clone, Copy, PartialEq, Eq, Structural)]
pub enum SettlementSource {
    Pointer(PointerId),
    Keyboard,
}

/// A drop settles the harvest only when it comes from the hand holding it: the
/// pointer that started the drag, or the keyboard for a keyboard harvest.
pub fn settlement_matches(phase: HarvestPhase, source: SettlementSource) -> (matched: bool)
    ensures
        matched == (match (phase, source) {
            (HarvestPhase::Dragging(held), SettlementSource::Pointer(dropped)) => held == dropped,
            (HarvestPhase::Keyboard, SettlementSource::Keyboard) => true,
            _ => false,
        }),
{
    match (phase, source) {
        (HarvestPhase::Dragging(held), SettlementSource::Pointer(dropped)) => match (held, dropped) {
            (PointerId::Mouse, PointerId::Mouse) => true,
            (PointerId::Touch(a), PointerId::Touch(b)) => a == b,
            _ => false,
        },
        (HarvestPhase::Keyboard, SettlementSource::Keyboard) => true,
        _ => false,
    }
}

/// Drop the harvest in flight and any settlement waiting on it.
pub fn cancel_harvest(phase: &mut HarvestPhase, pending: &mut Option<SettlementSource>)
    ensures
        *final(phase) == HarvestPhase::Idle,
        *final(pending) == None::<SettlementSource>,
{
    *phase = HarvestPhase::Idle;
    *pending = None;
}


/// What became, this frame, of the pointer holding a drag.
#[derive(Debug, Clone, Copy, PartialEq, Eq, Structural)]
pub enum HeldPointer {
    /// The platform took the touch away.
    Cancelled,
    /// Let go, on the deposit point or elsewhere.
    Released { on_deposit: bool },
    /// Still down; the banana follows it.
    Held,
    /// Neither down nor released, as far as the platform reports.
    Missing,
}

/// The harvest input of one frame, already hit-tested by the presentation.
#[derive(Debug, Clone, PartialEq, Eq)]
pub struct HarvestFrame {
    /// The diagnostics panel covers the board.
    pub diagnostics_open: bool,
    pub menu_closed: bool,
    /// Touches that went down this frame outside the HUD, each with whether
    /// it landed on the home tree.
    pub touch_starts: Vec<(u64, bool)>,
    /// The mouse went down this frame on the home tree, outside the HUD, and
    /// mouse input is not being suppressed after a touch.
    pub mouse_start: bool,
    /// The keyboard harvest key went down this frame.
    pub keyboard_start: bool,
    /// The worker-hire key went down this frame.
    pub hire_key: bool,
    /// What became of the pointer holding the drag, if one is.
    pub held: HeldPointer,
}

/// The lowest-numbered touch among `starts` that landed on the home tree.
pub open spec fn lowest_accepted(starts: Seq<(u64, bool)>) -> Option<u64>
    decreases starts.len(),
{
    if starts.len() == 0 {
        None
    } else {
        let rest = lowest_accepted(starts.drop_last());
        let (id, accepted) = starts.last();
        if !accepted {
            rest
        } else {
            match rest {
                Some(lowest) => if lowest <= id {
                    Some(lowest)
                } else {
                    Some(id)
                },
                None => Some(id),
            }
        }
    }
}

/// The harvest after a frame of input: the gesture in flight, the settlement
/// waiting on it, and whether the banana goes back to its tree.
///
/// A covered board drops any harvest. From idle, a touch on the tree wins
/// over the mouse, and the mouse over the keyboard. A drag let go on the
/// deposit point waits to be settled; let go anywhere else, or taken away, it
/// is dropped. A lost touch is waited for; a mouse whose button is no longer
/// down is not.
pub open spec fn harvest_after(
    phase: HarvestPhase,
    pending: Option<SettlementSource>,
    frame: HarvestFrame,
) -> (HarvestPhase, Option<SettlementSource>, bool) {
    if frame.diagnostics_open {
        if phase != HarvestPhase::Idle {
            (HarvestPhase::Idle, None, true)
        } else {
            (phase, pending, false)
        }
    } else if !frame.menu_closed {
        (phase, pending, false)
    } else {
        match phase {
            HarvestPhase::Idle => match lowest_accepted(frame.touch_starts@) {
                Some(id) => (HarvestPhase::Dragging(PointerId::Touch(id)), pending, false),
                None => if frame.mouse_start {
                    (HarvestPhase::Dragging(PointerId::Mouse), pending, false)
                } else if frame.keyboard_start {
                    (HarvestPhase::Keyboard, pending, false)
                } else {
                    (phase, pending, false)
                },
            },
            HarvestPhase::Dragging(pointer) => match frame.held {
                HeldPointer::Cancelled => (HarvestPhase::Idle, None, true),
                HeldPointer::Released { on_deposit } => if on_deposit {
                    (phase, Some(SettlementSource::Pointer(pointer)), false)
                } else {
                    (HarvestPhase::Idle, None, true)
                },
                HeldPointer::Held => (phase, pending, false),
                HeldPointer::Missing => match pointer {
                    PointerId::Touch(_) => (phase, pending, false),
                    PointerId::Mouse => (HarvestPhase::Idle, None, true),
                },
            },
            HarvestPhase::Keyboard => (phase, pending, false),
        }
    }
}

/// The hire key hires a worker, unless the board is covered by the
/// diagnostics panel or a menu is open.
pub open spec fn hires_a_worker(frame: HarvestFrame) -> bool {
    frame.hire_key && !frame.diagnostics_open && frame.menu_closed
}

fn lowest_touch(starts: &Vec<(u64, bool)>) -> (lowest: Option<u64>)
    ensures
        lowest == lowest_accepted(starts@),
{
    let mut lowest: Option<u64> = None;
    let mut i: usize = 0;
    while i < starts.len()
        invariant
            i <= starts@.len(),
            lowest == lowest_accepted(starts@.subrange(0, i as int)),
        decreases starts@.len() - i,
    {
        let (id, accepted) = starts[i];
        proof {
            assert(starts@.subrange(0, i + 1).drop_last() =~= starts@.subrange(0, i as int));
        }
        if accepted {
            lowest = match lowest {
                Some(seen) => if seen <= id {
                    Some(seen)
                } else {
                    Some(id)
                },
                None => Some(id),
            };
        }
        i = i + 1;
    }
    proof {
        assert(starts@.subrange(0, starts@.len() as int) =~= starts@);
    }
    lowest
}

/// A frame of harvest input. Updates the gesture in flight and the
/// settlement waiting on it, queues a worker's hire when the hire key asks for
/// one, and says whether the banana goes back to its tree.
pub fn harvest_input(
    phase: &mut HarvestPhase,
    pending: &mut Option<SettlementSource>,
    hires: &mut Vec<UnitKind>,
    frame: &HarvestFrame,
) -> (send_home: bool)
    ensures
        (*final(phase), *final(pending), send_home) == harvest_after(*old(phase), *old(pending), *frame),
        final(hires)@ == (if hires_a_worker(*frame) {
            old(hires)@.push(UnitKind::Worker)
        } else {
            old(hires)@
        }),
{
    if frame.diagnostics_open {
        if *phase != HarvestPhase::Idle {
            cancel_harvest(phase, pending);
            return true;
        }
        return false;
    }
    if !frame.menu_closed {
        return false;
    }
    if frame.hire_key {
        hires.push(UnitKind::Worker);
    }
    match *phase {
        HarvestPhase::Idle => {
            match lowest_touch(&frame.touch_starts) {
                Some(id) => {
                    *phase = HarvestPhase::Dragging(PointerId::Touch(id));
                },
                None => {
                    if frame.mouse_start {
                        *phase = HarvestPhase::Dragging(PointerId::Mouse);
                    } else if frame.keyboard_start {
                        *phase = HarvestPhase::Keyboard;
                    }
                },
            }
            false
        },
        HarvestPhase::Dragging(pointer) => match frame.held {
            HeldPointer::Cancelled => {
                cancel_harvest(phase, pending);
                true
            },
            HeldPointer::Released { on_deposit } => {
                if on_deposit {
                    *pending = Some(SettlementSource::Pointer(pointer));
                    false
                } else {
                    cancel_harvest(phase, pending);
                    true
                }
            },
            HeldPointer::Held => false,
            HeldPointer::Missing => match pointer {
                PointerId::Touch(_) => false,
                PointerId::Mouse => {
                    cancel_harvest(phase, pending);
                    true
                },
            },
        },
        HarvestPhase::Keyboard => false,
    }
}

// ──────────────────────────────────────────────────────────────── laws

/// On the shop's own view the tab arrows step the tab and nothing else does:
/// the left arrow steps back one tab (the tab it lands on is the one just
/// before where it stood), the right arrow steps on one, and the two in one
/// frame come back to where they started. A press of either closes the
/// information panel.
pub proof fn lemma_tab_presses_step_the_tab(p: Pressing)
    ensures
        tab_after(pressed(MenuState::Closed, p, ButtonAction::PreviousShopTab).tab) == p.tab,
        pressed(MenuState::Closed, p, ButtonAction::NextShopTab).tab == tab_after(p.tab),
        pressed(
            MenuState::Closed,
            pressed(MenuState::Closed, p, ButtonAction::PreviousShopTab),
            ButtonAction::NextShopTab,
        ).tab == p.tab,
        pressed(
            MenuState::Closed,
            pressed(MenuState::Closed, p, ButtonAction::NextShopTab),
            ButtonAction::PreviousShopTab,
        ).tab == p.tab,
        pressed(MenuState::Closed, p, ButtonAction::PreviousShopTab).info is None,
        pressed(MenuState::Closed, p, ButtonAction::NextShopTab).info is None,
{
}

/// A frame with no button pressed: with the menu closed, the left arrow
/// leaves the tab just before the one the frame began on, the right arrow the
/// one just after, and both together the same tab; with the menu open, the
/// arrows leave the tab alone.
pub proof fn lemma_arrow_keys_step_the_tab(panels: Panels, escape: bool, hire_ready: bool)
    ensures
        panels.menu == MenuState::Closed ==> tab_after(
            frame_outcome(panels, escape, true, false, seq![], hire_ready).tab,
        ) == panels.tab,
        panels.menu == MenuState::Closed ==> frame_outcome(panels, escape, false, true, seq![], hire_ready).tab
            == tab_after(panels.tab),
        frame_outcome(panels, escape, true, true, seq![], hire_ready).tab == panels.tab,
        panels.menu != MenuState::Closed ==> frame_outcome(panels, escape, true, false, seq![], hire_ready).tab
            == panels.tab,
{
    let start = frame_start(panels, escape, hire_ready);
    let none: Seq<ButtonAction> = seq![];
    lemma_tab_presses_step_the_tab(start);
    if panels.menu == MenuState::Closed {
        let left = frame_actions(panels.menu, true, false, none);
        assert(left =~= seq![ButtonAction::PreviousShopTab]);
        assert(pressed_all(panels.menu, start, left, 1) == pressed(
            panels.menu,
            pressed_all(panels.menu, start, left, 0),
            left[0],
        ));
        let right = frame_actions(panels.menu, false, true, none);
        assert(right =~= seq![ButtonAction::NextShopTab]);
        assert(pressed_all(panels.menu, start, right, 1) == pressed(
            panels.menu,
            pressed_all(panels.menu, start, right, 0),
            right[0],
        ));
        let both = frame_actions(panels.menu, true, true, none);
        assert(both =~= seq![ButtonAction::PreviousShopTab, ButtonAction::NextShopTab]);
        assert(pressed_all(panels.menu, start, both, 1) == pressed(
            panels.menu,
            pressed_all(panels.menu, start, both, 0),
            both[0],
        ));
        assert(pressed_all(panels.menu, start, both, 2) == pressed(
            panels.menu,
            pressed_all(panels.menu, start, both, 1),
            both[1],
        ));
    } else {
        assert(frame_actions(panels.menu, true, false, none) =~= none);
        assert(frame_actions(panels.menu, true, true, none) =~= none);
    }
}

/// A drag let go on the deposit point waits to settle, whichever pointer held
/// it: the drag stays in that pointer's hand, the settlement waiting is that
/// pointer's, and the banana stays where it was dropped. Let go anywhere else,
/// or taken away by the platform, the drag is dropped and the banana goes home.
pub proof fn lemma_a_drop_on_the_deposit_waits_to_settle(
    pointer: PointerId,
    pending: Option<SettlementSource>,
    frame: HarvestFrame,
)
    requires
        !frame.diagnostics_open,
        frame.menu_closed,
    ensures
        frame.held == (HeldPointer::Released { on_deposit: true }) ==> harvest_after(
            HarvestPhase::Dragging(pointer),
            pending,
            frame,
        ) == (HarvestPhase::Dragging(pointer), Some(SettlementSource::Pointer(pointer)), false),
        frame.held == (HeldPointer::Released { on_deposit: false }) || frame.held == HeldPointer::Cancelled
            ==> harvest_after(HarvestPhase::Dragging(pointer), pending, frame) == (
            HarvestPhase::Idle,
            None::<SettlementSource>,
            true,
        ),
{
}

} // verus!
