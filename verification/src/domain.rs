//! The counted half of the economy: how many monkeys and carts a run owns,
//! which leg of the round trip a harvester is on, and the rules that keep
//! those counts within what a real run can reach.

use vstd::prelude::*;

verus! {

/// Monkeys a cart needs, and the only number of monkeys a cart ever has.
pub const CART_CREW: u32 = 3;

/// No reachable economy comes near this; it bounds the cart spawn loop.
pub const MAX_CARTS: u32 = 500;

/// No reachable economy comes near this either: a tampered save otherwise
/// spawns that many support monkeys in a single tick.
pub const MAX_SUPPORT: u32 = 1_000;

/// The cap on hired workers, for the same reason as [`MAX_SUPPORT`].
pub const MAX_WORKERS: u32 = 1_000;

/// Research level the Cart is gated behind.
pub const CART_TECH_REQUIREMENT: u32 = 1;

// ─────────────────────────────────────────────────────────── harvest cycle

/// One leg of a harvester's round trip. Travel is split into two legs so the
/// trip can be animated; the snack is where the harvester is paid.
#[derive(Debug, Clone, Copy, PartialEq, Eq, Structural)]
pub enum Segment {
    ToGrove,
    Pick,
    ToDepot,
    Unload,
    Snack,
}

/// Where a segment stands in the round trip, counting from the walk out.
pub open spec fn segment_position(segment: Segment) -> nat {
    match segment {
        Segment::ToGrove => 0,
        Segment::Pick => 1,
        Segment::ToDepot => 2,
        Segment::Unload => 3,
        Segment::Snack => 4,
    }
}

/// The segment that follows `segment`: one place further round the trip,
/// wrapping from the snack back to the walk out.
pub open spec fn segment_after(segment: Segment) -> Segment {
    match segment {
        Segment::ToGrove => Segment::Pick,
        Segment::Pick => Segment::ToDepot,
        Segment::ToDepot => Segment::Unload,
        Segment::Unload => Segment::Snack,
        Segment::Snack => Segment::ToGrove,
    }
}

/// `segment_after` applied `n` times.
pub open spec fn segment_after_n(segment: Segment, n: nat) -> Segment
    decreases n,
{
    if n == 0 {
        segment
    } else {
        segment_after(segment_after_n(segment, (n - 1) as nat))
    }
}

impl Segment {
    pub fn next(self) -> (next: Self)
        ensures
            next == segment_after(self),
            segment_position(next) == (segment_position(self) + 1) % 5,
    {
        match self {
            Segment::ToGrove => Segment::Pick,
            Segment::Pick => Segment::ToDepot,
            Segment::ToDepot => Segment::Unload,
            Segment::Unload => Segment::Snack,
            Segment::Snack => Segment::ToGrove,
        }
    }

    /// True while the harvester has a banana in hand: from the grove back to
    /// the depot, through the unload, and the one it keeps back to eat.
    pub fn holds_banana(self) -> (holds: bool)
        ensures
            holds == (self == Segment::ToDepot || self == Segment::Unload || self
                == Segment::Snack),
            holds == (segment_position(self) >= 2),
    {
        match self {
            Segment::ToDepot | Segment::Unload | Segment::Snack => true,
            _ => false,
        }
    }

    /// The worker is standing still, at one end of the route or the other:
    /// picking at the grove, or unloading and eating at the depot.
    pub fn is_walking(self) -> (standing: bool)
        ensures
            standing == (self == Segment::Pick || self == Segment::Unload || self == Segment::Snack),
    {
        match self {
            Segment::Pick | Segment::Unload | Segment::Snack => true,
            _ => false,
        }
    }
}

/// Five steps of [`Segment::next`] bring a harvester back to the segment it
/// started in, and no fewer do: every round trip visits every leg exactly once.
pub proof fn lemma_round_trip_has_five_legs(segment: Segment, n: nat)
    requires
        0 < n < 5,
    ensures
        segment_after_n(segment, 5) == segment,
        segment_after_n(segment, n) != segment,
        segment_position(segment_after_n(segment, n)) == (segment_position(segment) + n) % 5,
{
    reveal_with_fuel(segment_after_n, 6);
}

// ───────────────────────────────────────────────────────────── support

/// The three monkeys who never touch a banana tree.
#[derive(Debug, Clone, Copy, PartialEq, Eq, Structural)]
pub enum SupportRole {
    Chef,
    Unpacker,
    Technologist,
}

impl SupportRole {
    pub fn name(self) -> (name: &'static str)
        ensures
            name@ == (match self {
                SupportRole::Chef => "CHEF"@,
                SupportRole::Unpacker => "UNPACKER"@,
                SupportRole::Technologist => "TECHNOLOGIST"@,
            }),
    {
        match self {
            SupportRole::Chef => "CHEF",
            SupportRole::Unpacker => "UNPACKER",
            SupportRole::Technologist => "TECHNOLOGIST",
        }
    }
}

/// How many of each support role have been hired. Never more than
/// [`MAX_SUPPORT`] of any one role.
#[derive(Debug, Clone, Copy, PartialEq, Eq)]
pub struct Staff {
    chefs: u32,
    unpackers: u32,
    technologists: u32,
}

impl Staff {
    #[verifier::type_invariant]
    spec fn within_cap(self) -> bool {
        &&& self.chefs <= MAX_SUPPORT
        &&& self.unpackers <= MAX_SUPPORT
        &&& self.technologists <= MAX_SUPPORT
    }

    /// How many of `role` are hired.
    pub closed spec fn hired(self, role: SupportRole) -> u32 {
        match role {
            SupportRole::Chef => self.chefs,
            SupportRole::Unpacker => self.unpackers,
            SupportRole::Technologist => self.technologists,
        }
    }

    /// Every role hired, summed.
    pub open spec fn hired_total(self) -> int {
        self.hired(SupportRole::Chef) + self.hired(SupportRole::Unpacker) + self.hired(
            SupportRole::Technologist,
        )
    }

    /// A saved staff list, refused when any role is past the cap.
    pub fn from_saved(chefs: u32, unpackers: u32, technologists: u32) -> (staff: Option<Self>)
        ensures
            staff is Some <==> (chefs <= MAX_SUPPORT && unpackers <= MAX_SUPPORT && technologists
                <= MAX_SUPPORT),
            staff matches Some(s) ==> s.hired(SupportRole::Chef) == chefs && s.hired(
                SupportRole::Unpacker,
            ) == unpackers && s.hired(SupportRole::Technologist) == technologists,
    {
        if chefs <= MAX_SUPPORT && unpackers <= MAX_SUPPORT && technologists <= MAX_SUPPORT {
            Some(Staff { chefs, unpackers, technologists })
        } else {
            None
        }
    }

    pub fn count(self, role: SupportRole) -> (count: u32)
        ensures
            count == self.hired(role),
            count <= MAX_SUPPORT,
    {
        proof {
            use_type_invariant(&self);
        }
        match role {
            SupportRole::Chef => self.chefs,
            SupportRole::Unpacker => self.unpackers,
            SupportRole::Technologist => self.technologists,
        }
    }

    pub fn total(self) -> (total: u32)
        ensures
            total == self.hired_total(),
    {
        proof {
            use_type_invariant(&self);
        }
        self.chefs + self.unpackers + self.technologists
    }

    /// One more of `role`, held at the cap.
    pub fn hire(&mut self, role: SupportRole)
        ensures
            final(self).hired(role) == if old(self).hired(role) < MAX_SUPPORT {
                old(self).hired(role) + 1
            } else {
                MAX_SUPPORT as int
            },
            forall|other: SupportRole|
                other != role ==> #[trigger] final(self).hired(other) == old(self).hired(other),
    {
        proof {
            use_type_invariant(&*self);
        }
        match role {
            SupportRole::Chef => {
                self.chefs = if self.chefs < MAX_SUPPORT {
                    self.chefs + 1
                } else {
                    MAX_SUPPORT
                };
            },
            SupportRole::Unpacker => {
                self.unpackers = if self.unpackers < MAX_SUPPORT {
                    self.unpackers + 1
                } else {
                    MAX_SUPPORT
                };
            },
            SupportRole::Technologist => {
                self.technologists = if self.technologists < MAX_SUPPORT {
                    self.technologists + 1
                } else {
                    MAX_SUPPORT
                };
            },
        }
    }

    /// Back to a run with nobody hired.
    pub fn restart(&mut self)
        ensures
            forall|role: SupportRole| #[trigger] final(self).hired(role) == 0,
    {
        *self = Staff { chefs: 0, unpackers: 0, technologists: 0 };
    }

    /// A staff list is exactly its three counts: any two that agree on every
    /// role are the same list.
    pub proof fn lemma_counts_determine_staff(a: Staff, b: Staff)
        requires
            forall|role: SupportRole| #[trigger] a.hired(role) == b.hired(role),
        ensures
            a == b,
    {
        assert(a.hired(SupportRole::Chef) == b.hired(SupportRole::Chef));
        assert(a.hired(SupportRole::Unpacker) == b.hired(SupportRole::Unpacker));
        assert(a.hired(SupportRole::Technologist) == b.hired(SupportRole::Technologist));
    }
}

impl Default for Staff {
    fn default() -> (staff: Self)
        ensures
            forall|role: SupportRole| #[trigger] staff.hired(role) == 0,
    {
        Staff { chefs: 0, unpackers: 0, technologists: 0 }
    }
}

/// How many of each role are currently fed, and therefore working.
#[derive(Debug, Clone, Copy, PartialEq, Eq, Structural)]
pub struct FedStaff {
    pub chefs: u32,
    pub unpackers: u32,
    pub technologists: u32,
}

/// The fed count of `role`.
pub open spec fn fed_count(fed: FedStaff, role: SupportRole) -> u32 {
    match role {
        SupportRole::Chef => fed.chefs,
        SupportRole::Unpacker => fed.unpackers,
        SupportRole::Technologist => fed.technologists,
    }
}

impl FedStaff {
    pub fn count(self, role: SupportRole) -> (count: u32)
        ensures
            count == fed_count(self, role),
    {
        match role {
            SupportRole::Chef => self.chefs,
            SupportRole::Unpacker => self.unpackers,
            SupportRole::Technologist => self.technologists,
        }
    }

    /// One more fed monkey of `role`.
    pub fn add(&mut self, role: SupportRole)
        requires
            fed_count(*old(self), role) < u32::MAX,
        ensures
            fed_count(*final(self), role) == fed_count(*old(self), role) + 1,
            forall|other: SupportRole|
                other != role ==> #[trigger] fed_count(*final(self), other) == fed_count(
                    *old(self),
                    other,
                ),
    {
        match role {
            SupportRole::Chef => self.chefs = self.chefs + 1,
            SupportRole::Unpacker => self.unpackers = self.unpackers + 1,
            SupportRole::Technologist => self.technologists = self.technologists + 1,
        }
    }

    pub fn total(self) -> (total: u32)
        requires
            self.chefs + self.unpackers + self.technologists <= u32::MAX,
        ensures
            total == self.chefs + self.unpackers + self.technologists,
    {
        self.chefs + self.unpackers + self.technologists
    }
}

impl Default for FedStaff {
    fn default() -> (fed: Self)
        ensures
            fed == (FedStaff { chefs: 0, unpackers: 0, technologists: 0 }),
    {
        FedStaff { chefs: 0, unpackers: 0, technologists: 0 }
    }
}

// ───────────────────────────────────────────────────────────── workforce

/// Workers hired, never more than [`MAX_WORKERS`].
#[derive(Debug, Clone, Copy, PartialEq, Eq)]
pub struct Workforce {
    hired: u32,
}

impl Workforce {
    #[verifier::type_invariant]
    spec fn within_cap(self) -> bool {
        self.hired <= MAX_WORKERS
    }

    /// Workers hired.
    pub closed spec fn hired(self) -> u32 {
        self.hired
    }

    /// A saved worker count, refused past the cap.
    pub fn from_saved(hired: u32) -> (workforce: Option<Self>)
        ensures
            workforce is Some <==> hired <= MAX_WORKERS,
            workforce matches Some(w) ==> w.hired() == hired,
    {
        if hired <= MAX_WORKERS {
            Some(Workforce { hired })
        } else {
            None
        }
    }

    pub fn count(self) -> (count: u32)
        ensures
            count == self.hired(),
            count <= MAX_WORKERS,
    {
        proof {
            use_type_invariant(&self);
        }
        self.hired
    }

    /// One more worker, held at the cap.
    pub fn hire(&mut self)
        ensures
            final(self).hired() == if old(self).hired() < MAX_WORKERS {
                old(self).hired() + 1
            } else {
                MAX_WORKERS as int
            },
    {
        proof {
            use_type_invariant(&*self);
        }
        self.hired = if self.hired < MAX_WORKERS {
            self.hired + 1
        } else {
            MAX_WORKERS
        };
    }

    pub fn restart(&mut self)
        ensures
            final(self).hired() == 0,
    {
        *self = Workforce { hired: 0 };
    }

    /// A workforce is exactly its head count.
    pub proof fn lemma_count_determines_workforce(a: Workforce, b: Workforce)
        requires
            a.hired() == b.hired(),
        ensures
            a == b,
    {
    }
}

impl Default for Workforce {
    fn default() -> (workforce: Self)
        ensures
            workforce.hired() == 0,
    {
        Workforce { hired: 0 }
    }
}

// ────────────────────────────────────────────────────────────────── carts

/// Carts owned, and how many monkeys are aboard them. A cart runs only with a
/// full crew, and the crew never outnumbers the berths the carts have.
#[derive(Debug, Clone, Copy, PartialEq, Eq)]
pub struct Carts {
    owned: u32,
    crewed: u32,
}

impl Carts {
    #[verifier::type_invariant]
    spec fn berths_cover_crew(self) -> bool {
        &&& self.owned <= MAX_CARTS
        &&& self.crewed <= self.owned * CART_CREW
    }

    /// Carts owned.
    pub closed spec fn carts_owned(self) -> u32 {
        self.owned
    }

    /// Monkeys aboard, across every cart.
    pub closed spec fn aboard(self) -> u32 {
        self.crewed
    }

    /// A saved fleet, refused when it owns more carts than the cap or seats
    /// more crew than it has berths.
    pub fn from_saved(owned: u32, crewed: u32) -> (carts: Option<Self>)
        ensures
            carts is Some <==> (owned <= MAX_CARTS && crewed <= owned * CART_CREW),
            carts matches Some(c) ==> c.carts_owned() == owned && c.aboard() == crewed,
    {
        if owned <= MAX_CARTS && crewed <= owned * CART_CREW {
            Some(Carts { owned, crewed })
        } else {
            None
        }
    }

    pub fn owned(self) -> (owned: u32)
        ensures
            owned == self.carts_owned(),
            owned <= MAX_CARTS,
    {
        proof {
            use_type_invariant(&self);
        }
        self.owned
    }

    /// Monkeys aboard, and therefore out of the walking pool.
    pub fn crewed(self) -> (crewed: u32)
        ensures
            crewed == self.aboard(),
            crewed <= self.carts_owned() * CART_CREW,
    {
        proof {
            use_type_invariant(&self);
        }
        self.crewed
    }

    /// Carts with a full crew. Only these run.
    pub fn running(self) -> (running: u32)
        ensures
            running == self.aboard() / CART_CREW,
            running <= self.carts_owned(),
    {
        proof {
            use_type_invariant(&self);
        }
        self.crewed / CART_CREW
    }

    /// Berths still waiting to be filled.
    pub fn berths_open(self) -> (open: u32)
        ensures
            open + self.aboard() == self.carts_owned() * CART_CREW,
    {
        proof {
            use_type_invariant(&self);
        }
        self.owned * CART_CREW - self.crewed
    }

    /// One more cart, with `boarding_now` monkeys climbing straight aboard.
    /// The fleet stops growing at the cap, and nobody boards past the berths.
    pub fn buy(&mut self, boarding_now: u32)
        requires
            old(self).aboard() + boarding_now <= u32::MAX,
        ensures
            final(self).carts_owned() == if old(self).carts_owned() < MAX_CARTS {
                old(self).carts_owned() + 1
            } else {
                MAX_CARTS as int
            },
            final(self).aboard() == if old(self).aboard() + boarding_now
                <= final(self).carts_owned() * CART_CREW {
                old(self).aboard() + boarding_now
            } else {
                final(self).carts_owned() * CART_CREW
            },
    {
        proof {
            use_type_invariant(&*self);
        }
        let owned = if self.owned < MAX_CARTS {
            self.owned + 1
        } else {
            MAX_CARTS
        };
        let berths = owned * CART_CREW;
        let crewed = if self.crewed + boarding_now <= berths {
            self.crewed + boarding_now
        } else {
            berths
        };
        *self = Carts { owned, crewed };
    }

    /// One more monkey has climbed aboard, if there is a berth for it.
    pub fn board(&mut self)
        ensures
            final(self).carts_owned() == old(self).carts_owned(),
            final(self).aboard() == if old(self).aboard() < old(self).carts_owned() * CART_CREW {
                old(self).aboard() + 1
            } else {
                old(self).aboard() as int
            },
    {
        proof {
            use_type_invariant(&*self);
        }
        if self.crewed < self.owned * CART_CREW {
            self.crewed = self.crewed + 1;
        }
    }

    pub fn restart(&mut self)
        ensures
            final(self).carts_owned() == 0,
            final(self).aboard() == 0,
    {
        *self = Carts { owned: 0, crewed: 0 };
    }

    /// A fleet is exactly its two counts.
    pub proof fn lemma_counts_determine_carts(a: Carts, b: Carts)
        requires
            a.carts_owned() == b.carts_owned(),
            a.aboard() == b.aboard(),
        ensures
            a == b,
    {
    }
}

impl Default for Carts {
    fn default() -> (carts: Self)
        ensures
            carts.carts_owned() == 0,
            carts.aboard() == 0,
    {
        Carts { owned: 0, crewed: 0 }
    }
}

/// Workers on hand but not already promised a berth, capped at one crew.
pub open spec fn spare_for_crew(workers: int, owned: int) -> int {
    let spare = if workers > owned * CART_CREW {
        workers - owned * CART_CREW
    } else {
        0
    };
    if spare < CART_CREW {
        spare
    } else {
        CART_CREW as int
    }
}

/// How many workers the player is short of a full crew for one more cart.
/// Spare means "not already promised to a berth", not "not yet aboard".
pub fn cart_crew_shortfall(workforce: Workforce, carts: Carts) -> (short: u32)
    ensures
        short == CART_CREW - spare_for_crew(workforce.hired() as int, carts.carts_owned() as int),
        short <= CART_CREW,
{
    let promised = carts.owned() * CART_CREW;
    let workers = workforce.count();
    let spare = if workers > promised {
        workers - promised
    } else {
        0
    };
    let usable = if spare < CART_CREW {
        spare
    } else {
        CART_CREW
    };
    CART_CREW - usable
}

/// Buying a cart together with its shortfall always seats a full crew for it:
/// when every berth already owned has a worker to fill it, the workers after the
/// purchase cover every berth including the new cart's, and no worker more than
/// that is bought.
pub proof fn lemma_shortfall_crews_the_new_cart(workers: int, owned: int)
    requires
        0 <= owned,
        workers >= owned * CART_CREW,
    ensures
        workers + (CART_CREW - spare_for_crew(workers, owned)) >= (owned + 1) * CART_CREW,
        CART_CREW - spare_for_crew(workers, owned) == 0 || workers + (CART_CREW
            - spare_for_crew(workers, owned)) == (owned + 1) * CART_CREW,
{
}

/// Which purchasable unit an offer is about.
#[derive(Debug, Clone, Copy, PartialEq, Eq, Structural)]
pub enum UnitKind {
    Worker,
    Support(SupportRole),
    Cart,
}

/// `n` workers hired one at a time onto `hired`, held at the cap.
pub open spec fn hired_after(hired: int, n: int) -> int {
    if hired + n <= MAX_WORKERS {
        hired + n
    } else {
        MAX_WORKERS as int
    }
}

/// The counts after a purchase the shop has already approved: a worker or a
/// support monkey is hired, and a cart comes with any crew the player was
/// short of, who board at once.
pub fn commit_hire(kind: UnitKind, workforce: &mut Workforce, carts: &mut Carts, staff: &mut Staff)
    ensures
        match kind {
            UnitKind::Worker => {
                &&& final(workforce).hired() == hired_after(old(workforce).hired() as int, 1)
                &&& *final(carts) == *old(carts)
                &&& *final(staff) == *old(staff)
            },
            UnitKind::Support(role) => {
                &&& *final(workforce) == *old(workforce)
                &&& *final(carts) == *old(carts)
                &&& final(staff).hired(role) == if old(staff).hired(role) < MAX_SUPPORT {
                    old(staff).hired(role) + 1
                } else {
                    MAX_SUPPORT as int
                }
                &&& forall|other: SupportRole|
                    other != role ==> #[trigger] final(staff).hired(other) == old(staff).hired(other)
            },
            UnitKind::Cart => {
                let short = CART_CREW - spare_for_crew(
                    old(workforce).hired() as int,
                    old(carts).carts_owned() as int,
                );
                let owned = if old(carts).carts_owned() < MAX_CARTS {
                    old(carts).carts_owned() + 1
                } else {
                    MAX_CARTS as int
                };
                &&& final(workforce).hired() == hired_after(old(workforce).hired() as int, short)
                &&& final(carts).carts_owned() == owned
                &&& final(carts).aboard() == if old(carts).aboard() + short <= owned * CART_CREW {
                    old(carts).aboard() + short
                } else {
                    owned * CART_CREW
                }
                &&& *final(staff) == *old(staff)
            },
        },
{
    match kind {
        UnitKind::Worker => workforce.hire(),
        UnitKind::Support(role) => staff.hire(role),
        UnitKind::Cart => {
            proof {
                use_type_invariant(&*workforce);
                use_type_invariant(&*carts);
            }
            let hires = cart_crew_shortfall(*workforce, *carts);
            let ghost start = workforce.hired() as int;
            let mut i: u32 = 0;
            while i < hires
                invariant
                    i <= hires,
                    hires <= CART_CREW,
                    workforce.hired() == hired_after(start, i as int),
                    0 <= start <= MAX_WORKERS,
                decreases hires - i,
            {
                workforce.hire();
                i = i + 1;
            }
            let crewed = carts.crewed();
            proof {
                assert(crewed <= MAX_CARTS * CART_CREW);
            }
            carts.buy(hires);
        },
    }
}

// ─────────────────────────────────────────────────────── saved quantities

/// A saved balance travels as the bit pattern of the IEEE-754 double the save
/// file holds: the counted economy never does arithmetic on it, it only decides
/// whether a run may start from it.
///
/// The bit pattern of `2^53 - 1`, the largest whole number a double holds
/// exactly: sign 0, biased exponent 1075, every fraction bit set.
pub const MAX_SAFE_BANANAS_BITS: u64 = 0x433f_ffff_ffff_ffff;

/// The bit pattern of negative zero, which compares equal to zero.
pub const NEGATIVE_ZERO_BITS: u64 = 0x8000_0000_0000_0000;

/// The sign bit of a double.
pub open spec fn float_sign(bits: u64) -> u64 {
    bits >> 63u64
}

/// The biased exponent of a double.
pub open spec fn float_exponent(bits: u64) -> u64 {
    (bits >> 52u64) & 0x7ffu64
}

/// The fraction bits of a double.
pub open spec fn float_fraction(bits: u64) -> u64 {
    bits & 0x000f_ffff_ffff_ffffu64
}

/// Whether the double with these bits is a banana count a run can hold: finite,
/// not negative, and no more than `2^53 - 1`.
///
/// A double is at most `2^53 - 1` exactly when its biased exponent is at most
/// 1075 (every double with that exponent lies in `[2^52, 2^53)`), which also
/// makes it finite; it is not negative when its sign bit is clear or it is a
/// zero. Fractional values are legitimate: wages drain continuously.
pub open spec fn valid_count_bits(bits: u64) -> bool {
    ||| float_sign(bits) == 0 && float_exponent(bits) <= 1075
    ||| float_exponent(bits) == 0 && float_fraction(bits) == 0
}

/// Rejects saved values that are negative, non-finite, or beyond the double's
/// integer-safe range, given as the bit pattern of the saved double.
pub fn is_valid_banana_count(bits: u64) -> (valid: bool)
    ensures
        valid == valid_count_bits(bits),
{
    let valid = bits <= MAX_SAFE_BANANAS_BITS || bits == NEGATIVE_ZERO_BITS;
    assert(valid == valid_count_bits(bits)) by (bit_vector)
        requires
            valid == (bits <= 0x433f_ffff_ffff_ffffu64 || bits == 0x8000_0000_0000_0000u64),
    ;
    valid
}

/// The banana balance a run was saved with.
#[derive(Debug, Clone, Copy, PartialEq, Eq)]
pub struct Treasury {
    bananas: u64,
}

impl Treasury {
    #[verifier::type_invariant]
    spec fn holdable(self) -> bool {
        valid_count_bits(self.bananas)
    }

    /// The balance, as the bits of its double.
    pub closed spec fn balance_bits(self) -> u64 {
        self.bananas
    }

    /// Rejects saved values that are negative, non-finite, or beyond the
    /// integer-safe range.
    pub fn from_saved(bananas: u64) -> (treasury: Option<Self>)
        ensures
            treasury is Some <==> valid_count_bits(bananas),
            treasury matches Some(t) ==> t.balance_bits() == bananas,
    {
        if is_valid_banana_count(bananas) {
            Some(Treasury { bananas })
        } else {
            None
        }
    }

    /// The exact balance, as the bits of its double.
    pub fn bananas(self) -> (bananas: u64)
        ensures
            bananas == self.balance_bits(),
            valid_count_bits(bananas),
    {
        proof {
            use_type_invariant(&self);
        }
        self.bananas
    }

    /// A balance is exactly its bits.
    pub proof fn lemma_bits_determine_treasury(a: Treasury, b: Treasury)
        requires
            a.balance_bits() == b.balance_bits(),
        ensures
            a == b,
    {
    }

    pub fn restart(&mut self)
        ensures
            final(self).balance_bits() == 0,
    {
        assert(valid_count_bits(0)) by (bit_vector);
        *self = Treasury { bananas: 0 };
    }
}

impl Default for Treasury {
    fn default() -> (treasury: Self)
        ensures
            treasury.balance_bits() == 0,
    {
        assert(valid_count_bits(0)) by (bit_vector);
        Treasury { bananas: 0 }
    }
}

/// Cumulative research points a run was saved with.
#[derive(Debug, Clone, Copy, PartialEq, Eq)]
pub struct Research {
    points: u64,
}

impl Research {
    #[verifier::type_invariant]
    spec fn holdable(self) -> bool {
        valid_count_bits(self.points)
    }

    /// The points, as the bits of their double.
    pub closed spec fn points_bits(self) -> u64 {
        self.points
    }

    pub fn from_saved(points: u64) -> (research: Option<Self>)
        ensures
            research is Some <==> valid_count_bits(points),
            research matches Some(r) ==> r.points_bits() == points,
    {
        if is_valid_banana_count(points) {
            Some(Research { points })
        } else {
            None
        }
    }

    pub fn points(self) -> (points: u64)
        ensures
            points == self.points_bits(),
            valid_count_bits(points),
    {
        proof {
            use_type_invariant(&self);
        }
        self.points
    }

    /// A research total is exactly its bits.
    pub proof fn lemma_bits_determine_research(a: Research, b: Research)
        requires
            a.points_bits() == b.points_bits(),
        ensures
            a == b,
    {
    }

    pub fn restart(&mut self)
        ensures
            final(self).points_bits() == 0,
    {
        assert(valid_count_bits(0)) by (bit_vector);
        *self = Research { points: 0 };
    }
}

impl Default for Research {
    fn default() -> (research: Self)
        ensures
            research.points_bits() == 0,
    {
        assert(valid_count_bits(0)) by (bit_vector);
        Research { points: 0 }
    }
}

/// Everything a run carries between sessions.
#[derive(Debug, Clone, Copy, PartialEq, Eq)]
pub struct SavedRun {
    pub treasury: Treasury,
    pub workforce: Workforce,
    pub staff: Staff,
    pub research: Research,
    pub carts: Carts,
}

impl Default for SavedRun {
    fn default() -> (run: Self)
        ensures
            run.treasury.balance_bits() == 0,
            run.workforce.hired() == 0,
            forall|role: SupportRole| #[trigger] run.staff.hired(role) == 0,
            run.research.points_bits() == 0,
            run.carts.carts_owned() == 0,
            run.carts.aboard() == 0,
    {
        SavedRun {
            treasury: Treasury::default(),
            workforce: Workforce::default(),
            staff: Staff::default(),
            research: Research::default(),
            carts: Carts::default(),
        }
    }
}

/// Reset every piece of run state together, so they cannot drift apart.
pub fn restart_run(
    treasury: &mut Treasury,
    workforce: &mut Workforce,
    carts: &mut Carts,
    staff: &mut Staff,
    research: &mut Research,
)
    ensures
        final(treasury).balance_bits() == 0,
        final(workforce).hired() == 0,
        final(carts).carts_owned() == 0,
        final(carts).aboard() == 0,
        forall|role: SupportRole| #[trigger] final(staff).hired(role) == 0,
        final(research).points_bits() == 0,
{
    treasury.restart();
    workforce.restart();
    carts.restart();
    staff.restart();
    research.restart();
}

} // verus!
