use banana_monkey::domain::{
    cart_crew_shortfall, commit_hire, is_valid_banana_count, restart_run, Carts, FedStaff,
    Research, SavedRun, Segment, Staff, SupportRole, Treasury, UnitKind, Workforce, CART_CREW,
    MAX_CARTS, MAX_SUPPORT, MAX_WORKERS,
};

const MAX_SAFE_BANANAS: f64 = 9_007_199_254_740_991.0;

#[test]
fn saved_count_must_be_nonnegative_finite_and_safe_but_may_be_fractional() {
    assert!(Treasury::from_saved(42.0f64.to_bits()).is_some());
    assert!(Treasury::from_saved(1.5f64.to_bits()).is_some());
    assert!(Treasury::from_saved((-1.0f64).to_bits()).is_none());
    assert!(Treasury::from_saved(f64::INFINITY.to_bits()).is_none());
    assert!(Treasury::from_saved(f64::NAN.to_bits()).is_none());
    assert!(Treasury::from_saved((MAX_SAFE_BANANAS + 2.0).to_bits()).is_none());
}

#[test]
fn restart_clears_every_piece_of_run_state_together() {
    let mut treasury = Treasury::from_saved(12.0f64.to_bits()).unwrap();
    let mut workforce = Workforce::from_saved(4).unwrap();

    let mut staff = Staff::from_saved(2, 3, 1).unwrap();
    let mut research = Research::from_saved(500.0f64.to_bits()).unwrap();
    let mut carts = Carts::from_saved(2, 6).unwrap();

    restart_run(
        &mut treasury,
        &mut workforce,
        &mut carts,
        &mut staff,
        &mut research,
    );

    assert_eq!(treasury, Treasury::default());
    assert_eq!(workforce, Workforce::default());
    assert_eq!(staff, Staff::default());
    assert_eq!(research, Research::default());
    assert_eq!(carts, Carts::default());
}

// ── further cases ──

#[test]
fn the_integer_safe_ceiling_is_the_last_valid_count() {
    assert!(is_valid_banana_count(MAX_SAFE_BANANAS.to_bits()));
    assert!(!is_valid_banana_count((MAX_SAFE_BANANAS + 1.0).to_bits()));
    assert!(is_valid_banana_count(0.0f64.to_bits()));
    assert!(is_valid_banana_count((-0.0f64).to_bits()));
    assert!(!is_valid_banana_count((-f64::MIN_POSITIVE).to_bits()));
    assert!(is_valid_banana_count(f64::MIN_POSITIVE.to_bits()));
    assert!(Research::from_saved(f64::NEG_INFINITY.to_bits()).is_none());
    assert_eq!(
        Treasury::from_saved(3.5f64.to_bits()).unwrap().bananas(),
        3.5f64.to_bits()
    );
}

#[test]
fn a_saved_worker_count_is_capped_and_hiring_saturates() {
    assert_eq!(Workforce::from_saved(7).map(Workforce::count), Some(7));
    assert_eq!(
        Workforce::from_saved(MAX_WORKERS).map(Workforce::count),
        Some(MAX_WORKERS)
    );
    assert_eq!(Workforce::from_saved(MAX_WORKERS + 1), None);
    assert_eq!(Workforce::from_saved(u32::MAX), None);
    let mut at_cap = Workforce::from_saved(MAX_WORKERS).unwrap();
    at_cap.hire();
    assert_eq!(at_cap.count(), MAX_WORKERS);
    let mut fresh = Workforce::default();
    fresh.hire();
    assert_eq!(fresh.count(), 1);
}

#[test]
fn support_staff_are_capped_per_role() {
    assert!(Staff::from_saved(MAX_SUPPORT, 0, 0).is_some());
    assert!(Staff::from_saved(0, MAX_SUPPORT + 1, 0).is_none());
    let mut staff = Staff::from_saved(1, 2, MAX_SUPPORT).unwrap();
    staff.hire(SupportRole::Chef);
    staff.hire(SupportRole::Technologist);
    assert_eq!(staff.count(SupportRole::Chef), 2);
    assert_eq!(staff.count(SupportRole::Unpacker), 2);
    assert_eq!(staff.count(SupportRole::Technologist), MAX_SUPPORT);
    assert_eq!(staff.total(), 4 + MAX_SUPPORT);
    staff.restart();
    assert_eq!(staff, Staff::default());
}

#[test]
fn fed_staff_count_by_role() {
    let mut fed = FedStaff::default();
    fed.add(SupportRole::Unpacker);
    fed.add(SupportRole::Unpacker);
    fed.add(SupportRole::Technologist);
    assert_eq!(fed.count(SupportRole::Chef), 0);
    assert_eq!(fed.count(SupportRole::Unpacker), 2);
    assert_eq!(fed.total(), 3);
}

#[test]
fn a_cart_boards_its_crew_one_by_one_and_runs_when_full() {
    let mut carts = Carts::default();
    carts.buy(0);
    assert_eq!((carts.owned(), carts.crewed(), carts.running()), (1, 0, 0));
    assert_eq!(carts.berths_open(), CART_CREW);
    carts.board();
    carts.board();
    assert_eq!(carts.running(), 0);
    carts.board();
    assert_eq!(carts.running(), 1);
    // A full fleet has no berth for a fourth monkey.
    carts.board();
    assert_eq!(carts.crewed(), CART_CREW);
    // Monkeys bought with a cart climb straight aboard, but never past the berths.
    carts.buy(5);
    assert_eq!((carts.owned(), carts.crewed()), (2, 2 * CART_CREW));
    carts.restart();
    assert_eq!(carts, Carts::default());
}

#[test]
fn the_fleet_and_its_crew_are_checked_on_load() {
    assert!(Carts::from_saved(MAX_CARTS, 0).is_some());
    assert!(Carts::from_saved(MAX_CARTS + 1, 0).is_none());
    assert!(Carts::from_saved(2, 6).is_some());
    assert!(Carts::from_saved(2, 7).is_none());
    let mut full = Carts::from_saved(MAX_CARTS, 0).unwrap();
    full.buy(0);
    assert_eq!(full.owned(), MAX_CARTS);
}

#[test]
fn a_second_cart_bought_during_boarding_still_needs_its_own_crew() {
    let workforce = Workforce::from_saved(3).unwrap();
    let mut carts = Carts::default();
    assert_eq!(cart_crew_shortfall(workforce, carts), 0);
    carts.buy(0);
    // Nobody has boarded yet, and the three spare monkeys are spoken for.
    assert_eq!(carts.crewed(), 0);
    assert_eq!(cart_crew_shortfall(workforce, carts), 3);
    for _ in 0..CART_CREW {
        carts.board();
    }
    assert_eq!(carts.berths_open(), 0);
    assert_eq!(cart_crew_shortfall(workforce, carts), 3);
    assert_eq!(
        cart_crew_shortfall(Workforce::from_saved(7).unwrap(), carts),
        0
    );
    assert_eq!(
        cart_crew_shortfall(Workforce::from_saved(4).unwrap(), carts),
        2
    );
}

#[test]
fn a_round_trip_visits_every_leg_once() {
    let mut segment = Segment::ToGrove;
    let mut seen = Vec::new();
    for _ in 0..5 {
        seen.push(segment);
        segment = segment.next();
    }
    assert_eq!(segment, Segment::ToGrove);
    assert_eq!(
        seen,
        vec![
            Segment::ToGrove,
            Segment::Pick,
            Segment::ToDepot,
            Segment::Unload,
            Segment::Snack
        ]
    );
    assert!(Segment::ToDepot.holds_banana() && Segment::Snack.holds_banana());
    assert!(!Segment::Pick.holds_banana());
    // True while the worker stands still, at one end of the route or the other.
    assert!(Segment::Unload.is_walking() && Segment::Pick.is_walking() && Segment::Snack.is_walking());
    assert!(!Segment::ToGrove.is_walking() && !Segment::ToDepot.is_walking());
    assert_eq!(SupportRole::Unpacker.name(), "UNPACKER");
}

#[test]
fn a_default_run_is_empty() {
    let run = SavedRun::default();
    assert_eq!(run.workforce.count(), 0);
    assert_eq!(run.carts.owned(), 0);
    assert_eq!(run.treasury.bananas(), 0);
    assert_eq!(run.research.points(), 0);
}

#[test]
fn a_cart_comes_with_the_crew_the_player_was_short_of() {
    let mut workforce = Workforce::from_saved(1).unwrap();
    let mut carts = Carts::default();
    let mut staff = Staff::default();
    commit_hire(UnitKind::Cart, &mut workforce, &mut carts, &mut staff);
    assert_eq!(workforce.count(), 3);
    // The two bought with the cart board at once; the spare one walks over later.
    assert_eq!((carts.owned(), carts.crewed()), (1, 2));
    assert_eq!(carts.running(), 0);
    carts.board();
    assert_eq!(carts.running(), 1);

    // With spare workers already standing by, nobody is hired and nobody boards yet.
    let mut workforce = Workforce::from_saved(9).unwrap();
    let mut carts = Carts::default();
    commit_hire(UnitKind::Cart, &mut workforce, &mut carts, &mut staff);
    assert_eq!(workforce.count(), 9);
    assert_eq!((carts.owned(), carts.crewed()), (1, 0));

    commit_hire(UnitKind::Worker, &mut workforce, &mut carts, &mut staff);
    assert_eq!(workforce.count(), 10);
    commit_hire(UnitKind::Support(SupportRole::Technologist), &mut workforce, &mut carts, &mut staff);
    assert_eq!(staff.count(SupportRole::Technologist), 1);
    assert_eq!(staff.count(SupportRole::Chef), 0);
}
