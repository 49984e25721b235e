use banana_monkey::domain::{Carts, Research, SavedRun, Staff, Treasury, Workforce};
use banana_monkey::persistence::{
    accept, assess, import, keep_first, pasted, payload_of, restore, Assessment, Recovery, Save,
    SaveMode, SetAside, Slot, SAVE_VERSION,
};

/// The largest whole number a double holds exactly.
const MAX_SAFE_BANANAS: f64 = 9_007_199_254_740_991.0;

fn run(bananas: f64, workers: u32) -> SavedRun {
    staffed(bananas, workers, 0, 0, 0)
}

fn staffed(bananas: f64, workers: u32, c: u32, u: u32, x: u32) -> SavedRun {
    researched(bananas, workers, c, u, x, 0.0)
}

fn researched(bananas: f64, workers: u32, c: u32, u: u32, x: u32, r: f64) -> SavedRun {
    SavedRun {
        treasury: Treasury::from_saved(bananas.to_bits()).unwrap(),
        workforce: Workforce::from_saved(workers).unwrap(),
        staff: Staff::from_saved(c, u, x).unwrap(),
        research: Research::from_saved(r.to_bits()).unwrap(),
        carts: Carts::default(),
    }
}

/// A double as the payload holds it.
fn b(x: f64) -> u64 {
    x.to_bits()
}

/// The payload serde reads from `{"version":N}`: every other field at its default.
fn blank(version: u32) -> Save {
    Save {
        version,
        bananas: 0,
        workers: 0,
        chefs: 0,
        unpackers: 0,
        technologists: 0,
        research: 0,
        carts: 0,
        crewed: 0,
        saved_at_ms: 0,
        build: String::new(),
    }
}

/// The whole load path bar the storage slot and serde's reading of the text:
/// `None` is a text serde refused.
fn decode(decoded: Option<Save>) -> Option<SavedRun> {
    restore(&accept(decoded)?)
}

fn written(run: SavedRun) -> Save {
    payload_of(&run, 0, "0.1.0".to_string())
}

fn bananas(run: &SavedRun) -> f64 {
    f64::from_bits(run.treasury.bananas())
}

#[test]
fn nonsense_does_not_import() {
    // Neither text is JSON, so serde reads no payload from it.
    assert_eq!(import("", None), None);
    assert_eq!(import("hello", None), None);
    assert_eq!(
        import(r#"{"version":4,"bananas":-1}"#, Some(Save { bananas: b(-1.0), ..blank(4) })),
        None
    );
}

#[test]
fn save_round_trip_preserves_the_run() {
    let mut saved = researched(123.0, 7, 2, 3, 1, 145.5);
    // Two carts running and a third halfway through boarding.
    saved.carts = Carts::from_saved(3, 7).unwrap();

    assert_eq!(decode(Some(written(saved))), Some(saved));
    assert_eq!(decode(Some(written(saved))).unwrap().carts.running(), 2);
    assert_eq!(decode(Some(written(saved))).unwrap().carts.berths_open(), 2);
    // The research points come back bit for bit, so the level they bought does too.
    assert_eq!(decode(Some(written(saved))).unwrap().research.points(), b(145.5));
}

#[test]
fn fractional_bananas_survive_a_round_trip_exactly() {
    let saved = run(12.345_678_9, 3);

    assert_eq!(decode(Some(written(saved))), Some(saved));
}

#[test]
fn an_exported_run_imports_as_itself() {
    let saved = researched(880.5, 12, 1, 2, 3, 61.0);
    let exported = r#"{"version":4,"bananas":880.5,"workers":12,"chefs":1,"unpackers":2,"technologists":3,"research":61.0,"carts":0,"crewed":0,"saved_at_ms":0.0,"build":"0.1.0"}"#;

    assert_eq!(import(exported, Some(written(saved))), Some(saved));
    // Players copy text, and text picks up whitespace.
    let copied = format!("  {}\n", exported);
    assert_eq!(pasted(&copied), exported);
    assert_eq!(import(&copied, Some(written(saved))), Some(saved));
}

#[test]
fn a_save_from_an_older_build_keeps_everything_that_build_had() {
    // {"version":1,"bananas":42}
    assert_eq!(decode(Some(Save { bananas: b(42.0), ..blank(1) })), Some(run(42.0, 0)));
    // {"version":2,"bananas":12.5,"workers":6}
    assert_eq!(
        decode(Some(Save { bananas: b(12.5), workers: 6, ..blank(2) })),
        Some(staffed(12.5, 6, 0, 0, 0))
    );
    assert_eq!(
        decode(Some(Save {
            bananas: b(9.5),
            workers: 4,
            chefs: 1,
            technologists: 2,
            research: b(61.0),
            ..blank(3)
        })),
        Some(researched(9.5, 4, 1, 0, 2, 61.0))
    );
}

#[test]
fn a_save_from_a_newer_build_still_opens_here() {
    let future = Save {
        bananas: b(500.0),
        workers: 8,
        chefs: 1,
        unpackers: 1,
        technologists: 1,
        research: b(61.0),
        carts: 2,
        crewed: 6,
        saved_at_ms: b(1.0),
        build: "9.9.9".to_string(),
        ..blank(9)
    };
    let restored = decode(Some(future)).expect("a newer save still restores");

    assert_eq!(bananas(&restored), 500.0);
    assert_eq!(restored.workforce.count(), 8);
    assert_eq!(restored.carts.running(), 2);
}

#[test]
fn a_missing_field_is_a_default_and_not_a_refusal() {
    assert_eq!(decode(Some(Save { bananas: b(3.0), ..blank(4) })), Some(run(3.0, 0)));
    assert_eq!(decode(Some(Save { workers: 1, ..blank(4) })), Some(run(0.0, 1)));
    assert_eq!(decode(Some(blank(4))), Some(SavedRun::default()));
}

#[test]
fn a_payload_that_is_not_ours_is_refused() {
    // `{}`, `{"bananas":3,"workers":1}`, `not json` and `[]` have no version,
    // so serde reads no payload from them.
    assert_eq!(decode(None), None);
    // {"version":0,"bananas":3}
    assert_eq!(decode(Some(Save { bananas: b(3.0), ..blank(0) })), None);
    assert_eq!(accept(Some(blank(0))), None);
    assert_eq!(accept(Some(blank(4))), Some(blank(4)));
}

#[test]
fn invalid_numeric_states_are_rejected() {
    let with_bananas = |x: f64| Save { bananas: b(x), ..blank(4) };
    assert_eq!(decode(Some(with_bananas(-1.0))), None);
    assert_eq!(decode(Some(Save { bananas: b(1.0), workers: 4_000_000_000, ..blank(4) })), None);
    assert_eq!(decode(Some(with_bananas(MAX_SAFE_BANANAS + 2.0))), None);
    assert_eq!(decode(Some(with_bananas(f64::INFINITY))), None);
    assert_eq!(decode(Some(with_bananas(f64::NAN))), None);
    assert_eq!(decode(Some(Save { research: b(-1.0), ..blank(4) })), None);
    let staffed_payload = |c: u32| Save { bananas: b(1.0), chefs: c, ..blank(4) };
    assert_eq!(decode(Some(staffed_payload(4_000_000_000))), None);
    assert!(decode(Some(staffed_payload(3))).is_some());
    let crewed = |carts: u32, crewed: u32| Save { bananas: b(1.0), workers: 9, carts, crewed, ..blank(4) };
    assert!(decode(Some(crewed(2, 6))).is_some());
    assert_eq!(decode(Some(crewed(2, 7))), None);
    assert_eq!(decode(Some(crewed(0, 1))), None);
    assert!(decode(Some(crewed(3, 9))).is_some());
    assert_eq!(decode(Some(crewed(4, 10))), None);
}

#[test]
fn a_save_records_when_it_was_written() {
    let save = payload_of(&run(5.0, 1), b(1_700_000_000_000.0), "0.1.0".to_string());

    assert_eq!(f64::from_bits(save.saved_at_ms), 1_700_000_000_000.0);
    assert_eq!(save.build, "0.1.0");
}

// ── further cases ──

#[test]
fn a_payload_records_every_count_of_the_run() {
    let mut saved = researched(7.25, 9, 1, 2, 3, 100.0);
    saved.carts = Carts::from_saved(2, 5).unwrap();
    let save = payload_of(&saved, 42, "b".to_string());

    assert_eq!(save.version, SAVE_VERSION);
    assert_eq!(save.bananas, 7.25f64.to_bits());
    assert_eq!(save.workers, 9);
    assert_eq!((save.chefs, save.unpackers, save.technologists), (1, 2, 3));
    assert_eq!(save.research, 100.0f64.to_bits());
    assert_eq!((save.carts, save.crewed), (2, 5));
    assert_eq!(save.saved_at_ms, 42);
    assert_eq!(restore(&save), Some(saved));
}

#[test]
fn a_crew_larger_than_the_workforce_is_refused_even_with_berths_for_it() {
    assert_eq!(decode(Some(Save { workers: 2, carts: 1, crewed: 3, ..blank(4) })), None);
    assert!(decode(Some(Save { workers: 3, carts: 1, crewed: 3, ..blank(4) })).is_some());
}

#[test]
fn an_import_has_to_mention_a_run() {
    // A save slot may hold a bare version; a clipboard may not.
    assert_eq!(import(r#"{"version":4}"#, Some(blank(4))), None);
    assert_eq!(
        import(r#"{"version":4,"build":"x"}"#, Some(Save { build: "x".to_string(), ..blank(4) })),
        None
    );
    assert_eq!(import(r#"{"version":4,"crewed":0}"#, Some(blank(4))), Some(SavedRun::default()));
    assert_eq!(
        import("\t{\"version\":4,\"workers\":2}\r\n", Some(Save { workers: 2, ..blank(4) })),
        Some(run(0.0, 2))
    );
    // A text that names a run still imports nothing when serde read no payload from it.
    assert_eq!(import(r#"{"version":4,"workers":2,"workers":3}"#, None), None);
    // An array names no part of a run.
    assert_eq!(import("[4, 3]", Some(Save { bananas: b(3.0), ..blank(4) })), None);
}

#[test]
fn negative_zero_bananas_are_an_empty_treasury() {
    let restored = decode(Some(Save { bananas: b(-0.0), ..blank(4) })).unwrap();
    assert_eq!(restored.treasury.bananas(), (-0.0f64).to_bits());
}

#[test]
fn a_load_sorts_the_slot_into_usable_newer_and_unusable() {
    assert!(matches!(assess(None), Assessment::Unusable));
    assert!(matches!(assess(Some(blank(0))), Assessment::Unusable));
    assert!(matches!(assess(Some(Save { workers: 5000, ..blank(4) })), Assessment::Unusable));
    match assess(Some(Save { workers: 2, ..blank(4) })) {
        Assessment::Usable { run: found, save, newer } => {
            assert_eq!(found, run(0.0, 2));
            assert_eq!(save.version, 4);
            assert!(!newer);
        }
        Assessment::Unusable => panic!("a current save is usable"),
    }
    match assess(Some(Save { workers: 2, ..blank(5) })) {
        Assessment::Usable { newer, .. } => assert!(newer),
        Assessment::Unusable => panic!("a newer save is still usable"),
    }
}

#[test]
fn slots_keep_their_v1_names() {
    assert_eq!(Slot::Save.key(), "save-v1");
    assert_eq!(Slot::Backup.key(), "save-v1.backup");
    assert_eq!(Slot::Quarantine.key(), "save-v1.quarantine");
    assert_eq!(Slot::QuarantineNewer.key(), "save-v1.newer");
}

#[test]
fn saving_is_live_unless_a_scenario_turns_it_off() {
    assert_eq!(SaveMode::default(), SaveMode::Live);
    assert_ne!(
        Recovery::Quarantined { kept: true },
        Recovery::FromNewerBuild { kept: true }
    );
}

#[test]
fn the_quarantine_keeps_the_first_loss() {
    assert_eq!(keep_first(None, "bad"), SetAside::Write);
    assert_eq!(
        keep_first(Some("older"), "bad"),
        SetAside::AlreadyHeld { same: false }
    );
    assert_eq!(
        keep_first(Some("bad"), "bad"),
        SetAside::AlreadyHeld { same: true }
    );
}
