//! The shop: its tabs, the rows of units it sells, and how each row looks for
//! the state of the run.

use vstd::prelude::*;
use crate::domain::{Carts, Staff, SupportRole, UnitKind, Workforce, CART_TECH_REQUIREMENT};

verus! {

/// The shop's tabs, left to right.
#[derive(Debug, Clone, Copy, PartialEq, Eq, Structural)]
pub enum ShopTab {
    Monkeys,
    Buildings,
    Research,
}

/// The tab to the right of `tab`, the last wrapping round to the first.
pub open spec fn tab_after(tab: ShopTab) -> ShopTab {
    match tab {
        ShopTab::Monkeys => ShopTab::Buildings,
        ShopTab::Buildings => ShopTab::Research,
        ShopTab::Research => ShopTab::Monkeys,
    }
}

impl Default for ShopTab {
    fn default() -> (tab: Self)
        ensures
            tab == ShopTab::Monkeys,
    {
        ShopTab::Monkeys
    }
}

impl ShopTab {
    pub fn previous(self) -> (tab: Self)
        ensures
            tab_after(tab) == self,
    {
        match self {
            ShopTab::Monkeys => ShopTab::Research,
            ShopTab::Buildings => ShopTab::Monkeys,
            ShopTab::Research => ShopTab::Buildings,
        }
    }

    pub fn next(self) -> (tab: Self)
        ensures
            tab == tab_after(self),
    {
        match self {
            ShopTab::Monkeys => ShopTab::Buildings,
            ShopTab::Buildings => ShopTab::Research,
            ShopTab::Research => ShopTab::Monkeys,
        }
    }

    pub fn label(self) -> (label: &'static str)
        ensures
            label@ == (match self {
                ShopTab::Monkeys => "MONKEYS"@,
                ShopTab::Buildings => "BUILDINGS"@,
                ShopTab::Research => "RESEARCH"@,
            }),
    {
        match self {
            ShopTab::Monkeys => "MONKEYS",
            ShopTab::Buildings => "BUILDINGS",
            ShopTab::Research => "RESEARCH",
        }
    }
}

/// The tabs cycle in both directions: no two tabs step right onto the same
/// tab, so stepping right then left, or left then right, lands where it
/// started; and three steps right go all the way round.
pub proof fn lemma_tabs_cycle(a: ShopTab, b: ShopTab)
    ensures
        tab_after(a) == tab_after(b) ==> a == b,
        tab_after(tab_after(tab_after(a))) == a,
{
}

/// Which unit a row of the shop is about.
#[derive(Debug, Clone, Copy, PartialEq, Eq, Structural)]
pub enum Unit {
    Worker,
    Support(SupportRole),
    /// Present from the first frame, and locked until research says otherwise.
    Cart,
}

impl Unit {
    /// The row heading, singular: the count is a column of the row.
    pub fn name(self) -> (name: &'static str)
        ensures
            name@ == (match self {
                Unit::Worker => "WORKER"@,
                Unit::Support(SupportRole::Chef) => "CHEF"@,
                Unit::Support(SupportRole::Unpacker) => "UNPACKER"@,
                Unit::Support(SupportRole::Technologist) => "TECHNOLOGIST"@,
                Unit::Cart => "CART"@,
            }),
    {
        match self {
            Unit::Worker => "WORKER",
            Unit::Support(role) => role.name(),
            Unit::Cart => "CART",
        }
    }

    /// What buying one of this row purchases.
    pub fn kind(self) -> (kind: UnitKind)
        ensures
            kind == (match self {
                Unit::Worker => UnitKind::Worker,
                Unit::Support(role) => UnitKind::Support(role),
                Unit::Cart => UnitKind::Cart,
            }),
    {
        match self {
            Unit::Worker => UnitKind::Worker,
            Unit::Support(role) => UnitKind::Support(role),
            Unit::Cart => UnitKind::Cart,
        }
    }

    /// The one-line description in the information panel.
    pub fn description(self) -> (text: &'static str)
        ensures
            text@ == (match self {
                Unit::Worker => "Harvests 6 bananas from the jungle per minute."@,
                Unit::Support(SupportRole::Chef) => "Makes harvesting monkeys travel 15% faster."@,
                Unit::Support(SupportRole::Unpacker) => "Unloads bananas 20% faster."@,
                Unit::Support(SupportRole::Technologist) => "Produces 1.0 research per second."@,
                Unit::Cart => "Carries 100 bananas per trip with a 3-monkey crew."@,
            }),
    {
        match self {
            Unit::Worker => "Harvests 6 bananas from the jungle per minute.",
            Unit::Support(SupportRole::Chef) => "Makes harvesting monkeys travel 15% faster.",
            Unit::Support(SupportRole::Unpacker) => "Unloads bananas 20% faster.",
            Unit::Support(SupportRole::Technologist) => "Produces 1.0 research per second.",
            Unit::Cart => "Carries 100 bananas per trip with a 3-monkey crew.",
        }
    }
}

// ─────────────────────────────────────────────────────────── row display

/// The columns of a shop row.
#[derive(Debug, Clone, Copy, PartialEq, Eq, Structural)]
pub enum UnitStat {
    Name,
    Price,
    Owned,
    Gain,
    Feeding,
}

/// The colours the shop draws its rows in.
#[derive(Debug, Clone, Copy, PartialEq, Eq, Structural)]
pub enum Swatch {
    /// The muted label colour.
    Label,
    /// The dark soil a lit price is drawn in.
    Soil,
    /// The card behind an unaffordable button.
    Card,
    Gold,
    Cream,
    BrownLight,
    Ink,
}

/// The pointer over a hire button.
#[derive(Debug, Clone, Copy, PartialEq, Eq, Structural)]
pub enum Pointer {
    Away,
    Hovered,
    Pressed,
}

/// How a hire button is drawn: its fill, its edge, and whether it shows.
#[derive(Debug, Clone, Copy, PartialEq, Eq, Structural)]
pub struct ButtonLook {
    pub fill: Swatch,
    pub edge: Swatch,
    pub shown: bool,
}

/// Whether a row cannot be bought yet: the Cart, until research reaches the
/// level it needs.
pub open spec fn row_locked(unit: Unit, research_level: u32) -> bool {
    unit == Unit::Cart && research_level < CART_TECH_REQUIREMENT
}

/// The colour of one field of a row: muted while the row is locked; a price
/// the player can pay in gold, or in soil under the pointer; a technologist's
/// gain in gold, since it is a wage by design and never a loss; another
/// negative gain in light brown; any other price muted; the rest in ink.
pub open spec fn tone_of(
    stat: UnitStat,
    unit: Unit,
    locked: bool,
    affordable: bool,
    lit: bool,
    gain_below_zero: bool,
) -> Swatch {
    if locked {
        Swatch::Label
    } else if stat == UnitStat::Price && affordable && lit {
        Swatch::Soil
    } else if stat == UnitStat::Price && affordable {
        Swatch::Gold
    } else if stat == UnitStat::Gain && unit == Unit::Support(SupportRole::Technologist) {
        Swatch::Gold
    } else if stat == UnitStat::Gain && gain_below_zero {
        Swatch::BrownLight
    } else if stat == UnitStat::Price {
        Swatch::Label
    } else {
        Swatch::Ink
    }
}

impl Unit {
    /// Whether this row is locked at a research level.
    pub fn locked(self, research_level: u32) -> (locked: bool)
        ensures
            locked == row_locked(self, research_level),
    {
        match self {
            Unit::Cart => research_level < CART_TECH_REQUIREMENT,
            _ => false,
        }
    }

    /// How many of this row the player has.
    pub fn owned(self, workforce: Workforce, staff: Staff, carts: Carts) -> (owned: u32)
        ensures
            owned == (match self {
                Unit::Worker => workforce.hired(),
                Unit::Support(role) => staff.hired(role),
                Unit::Cart => carts.carts_owned(),
            }),
    {
        match self {
            Unit::Worker => workforce.count(),
            Unit::Support(role) => staff.count(role),
            Unit::Cart => carts.owned(),
        }
    }

    /// The colour of field `stat` of this row. `can_pay` is whether the
    /// economy would sell one now, `lit` whether the pointer is on the row's
    /// button, and `gain_below_zero` whether buying one loses bananas.
    pub fn field_tone(
        self,
        stat: UnitStat,
        research_level: u32,
        can_pay: bool,
        lit: bool,
        gain_below_zero: bool,
    ) -> (tone: Swatch)
        ensures
            tone == tone_of(
                stat,
                self,
                row_locked(self, research_level),
                can_pay && !row_locked(self, research_level),
                lit,
                gain_below_zero,
            ),
    {
        let locked = self.locked(research_level);
        let affordable = can_pay && !locked;
        let technologist = match self {
            Unit::Support(SupportRole::Technologist) => true,
            _ => false,
        };
        if locked {
            Swatch::Label
        } else if stat == UnitStat::Price && affordable && lit {
            Swatch::Soil
        } else if stat == UnitStat::Price && affordable {
            Swatch::Gold
        } else if stat == UnitStat::Gain && technologist {
            Swatch::Gold
        } else if stat == UnitStat::Gain && gain_below_zero {
            Swatch::BrownLight
        } else if stat == UnitStat::Price {
            Swatch::Label
        } else {
            Swatch::Ink
        }
    }

    /// How this row's hire button is drawn: dull when it cannot be bought,
    /// gold with a cream edge under the pointer, light brown with a gold edge
    /// otherwise; hidden while the row is locked, when its plaque shows.
    pub fn button_look(self, research_level: u32, can_pay: bool, pointer: Pointer) -> (look:
        ButtonLook)
        ensures
            look.shown == !row_locked(self, research_level),
            !(can_pay && !row_locked(self, research_level)) ==> look.fill == Swatch::Card
                && look.edge == Swatch::Label,
            can_pay && !row_locked(self, research_level) && pointer != Pointer::Away ==> look.fill
                == Swatch::Gold && look.edge == Swatch::Cream,
            can_pay && !row_locked(self, research_level) && pointer == Pointer::Away ==> look.fill
                == Swatch::BrownLight && look.edge == Swatch::Gold,
    {
        let locked = self.locked(research_level);
        let (fill, edge) = if !(can_pay && !locked) {
            (Swatch::Card, Swatch::Label)
        } else {
            match pointer {
                Pointer::Pressed | Pointer::Hovered => (Swatch::Gold, Swatch::Cream),
                Pointer::Away => (Swatch::BrownLight, Swatch::Gold),
            }
        };
        ButtonLook { fill, edge, shown: !locked }
    }

    /// Whether the row's locked plaque shows.
    pub fn plaque_shown(self, research_level: u32) -> (shown: bool)
        ensures
            shown == row_locked(self, research_level),
    {
        self.locked(research_level)
    }
}

/// A technologist's gain, a wage by design, is never drawn as a loss, whatever
/// the run's state.
pub proof fn lemma_a_technologist_is_never_drawn_at_a_loss(
    unit: Unit,
    research_level: u32,
    can_pay: bool,
    lit: bool,
    gain_below_zero: bool,
)
    ensures
        unit == Unit::Support(SupportRole::Technologist) ==> tone_of(
            UnitStat::Gain,
            unit,
            row_locked(unit, research_level),
            can_pay && !row_locked(unit, research_level),
            lit,
            gain_below_zero,
        ) == Swatch::Gold,
{
}

} // verus!
