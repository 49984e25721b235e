//! Where a run goes between sessions, and what a payload has to say before a
//! run may start from it.
//!
//! Every field of a save is optional on the way in except `version`: an older
//! payload arrives with a newer field at its default, and a newer payload's
//! unknown fields are ignored. What a payload holds is then validated rather
//! than trusted, because local storage and the clipboard are player-writable.
//!
//! Turning text into a [`Save`] is serde's, by the rules of the save's own
//! derived reading; this module decides what a payload so read is good for.

use vstd::prelude::*;
use crate::text::{same_text, trim_space, without_surrounding_space};
use crate::domain::{
    Carts, Research, SavedRun, Staff, SupportRole, Treasury, Workforce, valid_count_bits, CART_CREW,
    MAX_CARTS, MAX_SUPPORT, MAX_WORKERS,
};

verus! {

/// Whether progress reaches the player's save at all. A run launched from a
/// named scenario is `Off`: writing it back would overwrite the run the player did.
#[derive(Debug, Clone, Copy, PartialEq, Eq, Structural)]
pub enum SaveMode {
    Live,
    Off,
}

impl Default for SaveMode {
    fn default() -> (mode: Self)
        ensures
            mode == SaveMode::Live,
    {
        SaveMode::Live
    }
}

/// Bumped only when a field's meaning changes, never when one is added or removed.
pub const SAVE_VERSION: u32 = 4;

/// Where a payload lives. The names are a namespace, not a schema version.
#[derive(Debug, Clone, Copy, PartialEq, Eq, Structural)]
pub enum Slot {
    /// The run.
    Save,
    /// The run as it was when this session opened.
    Backup,
    /// A payload this build could not read at all. Written once and then left alone.
    Quarantine,
    /// A payload written by a newer build, which this one can only read lossily.
    QuarantineNewer,
}

impl Slot {
    pub fn key(self) -> (key: &'static str)
        ensures
            key@ == (match self {
                Slot::Save => "save-v1"@,
                Slot::Backup => "save-v1.backup"@,
                Slot::Quarantine => "save-v1.quarantine"@,
                Slot::QuarantineNewer => "save-v1.newer"@,
            }),
    {
        match self {
            Slot::Save => "save-v1",
            Slot::Backup => "save-v1.backup",
            Slot::Quarantine => "save-v1.quarantine",
            Slot::QuarantineNewer => "save-v1.newer",
        }
    }
}

/// Why the save on disk could not simply be used.
#[derive(Debug, Clone, Copy, PartialEq, Eq, Structural)]
pub enum Recovery {
    /// Unreadable, and the run starts fresh. `kept` says whether the raw text
    /// actually reached its slot.
    Quarantined { kept: bool },
    /// Written by a build newer than this one, and loaded for everything this
    /// build understands.
    FromNewerBuild { kept: bool },
}

/// The payload, field by field. The three fractional fields hold the bit
/// patterns of the doubles the payload wrote.
#[derive(Debug, Clone, PartialEq, Eq)]
pub struct Save {
    pub version: u32,
    pub bananas: u64,
    pub workers: u32,
    pub chefs: u32,
    pub unpackers: u32,
    pub technologists: u32,
    pub research: u64,
    pub carts: u32,
    pub crewed: u32,
    pub saved_at_ms: u64,
    pub build: String,
}

// ──────────────────────────────────────────────────────── reading JSON

/// Whether the JSON object `text` has a field named `key`; `None` when `text`
/// is not a JSON object.
pub uninterp spec fn json_object_has(text: Seq<char>, key: Seq<char>) -> Option<bool>;

/// Calls `serde_json::from_str` for a `serde_json::Value` and, on an object,
/// `serde_json::Map::contains_key`. Claims only that the answer is a function
/// of the text and the key.
#[verifier::external_body]
fn object_has_field(text: &str, key: &str) -> (has: Option<bool>)
    ensures
        has == json_object_has(text@, key@),
{
    match serde_json::from_str::<serde_json::Value>(text) {
        Ok(serde_json::Value::Object(fields)) => Some(fields.contains_key(key)),
        _ => None,
    }
}

// ─────────────────────────────────────────────────────────── the payload

/// The fields whose presence says a payload describes a run.
pub open spec fn run_field_name(i: int) -> Seq<char> {
    if i == 0 {
        "bananas"@
    } else if i == 1 {
        "workers"@
    } else if i == 2 {
        "chefs"@
    } else if i == 3 {
        "unpackers"@
    } else if i == 4 {
        "technologists"@
    } else if i == 5 {
        "research"@
    } else if i == 6 {
        "carts"@
    } else {
        "crewed"@
    }
}

fn run_field(i: usize) -> (name: &'static str)
    requires
        i < 8,
    ensures
        name@ == run_field_name(i as int),
{
    match i {
        0 => "bananas",
        1 => "workers",
        2 => "chefs",
        3 => "unpackers",
        4 => "technologists",
        5 => "research",
        6 => "carts",
        _ => "crewed",
    }
}

/// The payload is a JSON object that mentions some part of a run.
pub open spec fn mentions_a_run(text: Seq<char>) -> bool {
    exists|i: int| 0 <= i < 8 && json_object_has(text, #[trigger] run_field_name(i)) == Some(true)
}

/// Whether the payload mentions any part of a run at all, as opposed to merely
/// being shaped like one.
pub fn names_a_run(raw: &str) -> (names: bool)
    ensures
        names == mentions_a_run(raw@),
{
    let mut i: usize = 0;
    while i < 8
        invariant
            i <= 8,
            forall|j: int| 0 <= j < i ==> json_object_has(raw@, #[trigger] run_field_name(j)) != Some(true),
        decreases 8 - i,
    {
        if object_has_field(raw, run_field(i)) == Some(true) {
            return true;
        }
        i = i + 1;
    }
    false
}

/// What is left of a payload serde has read (`None` where serde refused the
/// text) once payloads that are not ours are turned away: one whose `version`
/// is zero, which is what a payload with no `version` would read as if the
/// field were ever made optional.
pub open spec fn accepted(decoded: Option<Save>) -> Option<Save> {
    match decoded {
        Some(save) => if save.version > 0 {
            Some(save)
        } else {
            None
        },
        None => None,
    }
}

/// Text to payload, once serde has read the text into a [`Save`] by the
/// save's own rules (every field but `version` optional, unknown fields
/// ignored, a field given twice refused). Rejects only what is not one of our
/// saves at all.
pub fn accept(decoded: Option<Save>) -> (save: Option<Save>)
    ensures
        save == accepted(decoded),
{
    match decoded {
        Some(save) => if save.version > 0 {
            Some(save)
        } else {
            None
        },
        None => None,
    }
}

/// The counts a payload holds describe a run this game could have reached.
pub open spec fn describes_a_run(
    bananas: u64,
    workers: u32,
    chefs: u32,
    unpackers: u32,
    technologists: u32,
    research: u64,
    carts: u32,
    crewed: u32,
) -> bool {
    &&& valid_count_bits(bananas)
    &&& workers <= MAX_WORKERS
    &&& chefs <= MAX_SUPPORT
    &&& unpackers <= MAX_SUPPORT
    &&& technologists <= MAX_SUPPORT
    &&& valid_count_bits(research)
    &&& crewed <= workers
    &&& carts <= MAX_CARTS
    &&& crewed <= carts * CART_CREW
}

/// `run` holds exactly the counts given.
pub open spec fn run_holds(
    run: SavedRun,
    bananas: u64,
    workers: u32,
    chefs: u32,
    unpackers: u32,
    technologists: u32,
    research: u64,
    carts: u32,
    crewed: u32,
) -> bool {
    &&& run.treasury.balance_bits() == bananas
    &&& run.workforce.hired() == workers
    &&& run.staff.hired(SupportRole::Chef) == chefs
    &&& run.staff.hired(SupportRole::Unpacker) == unpackers
    &&& run.staff.hired(SupportRole::Technologist) == technologists
    &&& run.research.points_bits() == research
    &&& run.carts.carts_owned() == carts
    &&& run.carts.aboard() == crewed
}

/// Payload to run. Rejects what could not have been a real run: a balance or
/// research total that is negative, non-finite or past the integer-safe
/// range, a count past its cap, a crew larger than the workforce, or a crew
/// larger than the berths it could sit in.
pub fn restore(save: &Save) -> (run: Option<SavedRun>)
    ensures
        run is Some <==> describes_a_run(
            save.bananas,
            save.workers,
            save.chefs,
            save.unpackers,
            save.technologists,
            save.research,
            save.carts,
            save.crewed,
        ),
        run matches Some(r) ==> run_holds(
            r,
            save.bananas,
            save.workers,
            save.chefs,
            save.unpackers,
            save.technologists,
            save.research,
            save.carts,
            save.crewed,
        ),
{
    let treasury = Treasury::from_saved(save.bananas)?;
    let workforce = Workforce::from_saved(save.workers)?;
    let staff = Staff::from_saved(save.chefs, save.unpackers, save.technologists)?;
    let research = Research::from_saved(save.research)?;
    if save.crewed > save.workers {
        return None;
    }
    let carts = Carts::from_saved(save.carts, save.crewed)?;
    Some(SavedRun { treasury, workforce, staff, research, carts })
}

/// The payload serde read from the save slot loads: it is one of our saves,
/// and it describes a run this game could have reached.
pub open spec fn loads(decoded: Option<Save>) -> bool {
    accepted(decoded) matches Some(save) && restorable(save)
}

/// Pasted text as an import reads it: without the whitespace copying picks up.
pub fn pasted(raw: &str) -> (text: &str)
    ensures
        text@ == without_surrounding_space(raw@),
{
    trim_space(raw)
}

/// What importing `text` gives, where `decoded` is what serde read from the
/// pasted text: the run it describes, when the text mentions some part of a
/// run and the payload would load.
pub open spec fn imported(text: Seq<char>, decoded: Option<Save>, run: Option<SavedRun>) -> bool {
    &&& run is Some <==> (mentions_a_run(without_surrounding_space(text)) && loads(decoded))
    &&& run matches Some(r) ==> (decoded matches Some(save) && restores_to(save, r))
}

/// A run from text the player pasted, given what serde read from the text as
/// [`pasted`] trims it. Stricter than the save slot: the text has to mention
/// some part of a run, so a bare `{"version":4}` does not report success and
/// zero the player's progress.
pub fn import(raw: &str, decoded: Option<Save>) -> (run: Option<SavedRun>)
    ensures
        imported(raw@, decoded, run),
{
    let text = pasted(raw);
    if !names_a_run(text) {
        return None;
    }
    match accept(decoded) {
        None => None,
        Some(save) => restore(&save),
    }
}


// ───────────────────────────────────────────────────────── the save slot

/// What becomes of a payload this build could not use, given what the
/// quarantine slot already holds.
#[derive(Debug, Clone, Copy, PartialEq, Eq, Structural)]
pub enum SetAside {
    /// The slot is empty: write the payload there.
    Write,
    /// An earlier loss occupies the slot and is kept; `same` says whether it
    /// is this very payload, which is then safe after all.
    AlreadyHeld { same: bool },
}

/// The quarantine keeps the first loss: a payload is written there only when
/// the slot is empty, and a held payload is never overwritten.
pub fn keep_first(held: Option<&str>, raw: &str) -> (plan: SetAside)
    ensures
        match held {
            None => plan == SetAside::Write,
            Some(earlier) => plan == (SetAside::AlreadyHeld { same: earlier@ == raw@ }),
        },
{
    match held {
        None => SetAside::Write,
        Some(earlier) => SetAside::AlreadyHeld { same: same_text(earlier, raw) },
    }
}

/// What the payload in the save slot is good for.
#[derive(Debug)]
pub enum Assessment {
    /// Not one of our saves, or not a run this game could have reached. It is
    /// set aside in the quarantine slot and the run starts fresh.
    Unusable,
    /// A run, the payload it came from, and whether a build newer than this
    /// one wrote it (in which case the stored text is kept aside for that build).
    Usable { run: SavedRun, save: Save, newer: bool },
}

/// The counts of `save` describe a run this game could have reached.
pub open spec fn restorable(save: Save) -> bool {
    describes_a_run(
        save.bananas,
        save.workers,
        save.chefs,
        save.unpackers,
        save.technologists,
        save.research,
        save.carts,
        save.crewed,
    )
}

/// `run` holds exactly the counts `save` records.
pub open spec fn restores_to(save: Save, run: SavedRun) -> bool {
    run_holds(
        run,
        save.bananas,
        save.workers,
        save.chefs,
        save.unpackers,
        save.technologists,
        save.research,
        save.carts,
        save.crewed,
    )
}

/// The decision a load makes about the payload serde read from the save slot
/// (`None` where serde refused the text): usable when it is one of our saves
/// and describes a reachable run, newer when its `version` is past
/// [`SAVE_VERSION`]. Reading the slot and setting payloads aside is the caller's.
pub fn assess(decoded: Option<Save>) -> (found: Assessment)
    ensures
        found is Unusable <==> !loads(decoded),
        found matches Assessment::Usable { run, save, newer } ==> {
            &&& accepted(decoded) == Some(save)
            &&& restores_to(save, run)
            &&& newer == (save.version > SAVE_VERSION)
        },
{
    let save = match accept(decoded) {
        Some(save) => save,
        None => {
            return Assessment::Unusable;
        },
    };
    match restore(&save) {
        Some(run) => {
            let newer = save.version > SAVE_VERSION;
            Assessment::Usable { run, save, newer }
        },
        None => Assessment::Unusable,
    }
}

/// The payload that records `run`: this build's version, every count the run
/// holds, the time it was written (the bits of the milliseconds since the
/// epoch, as a double) and the build that wrote it.
pub fn payload_of(run: &SavedRun, saved_at_ms: u64, build: String) -> (save: Save)
    ensures
        save.version == SAVE_VERSION,
        save.bananas == run.treasury.balance_bits(),
        save.workers == run.workforce.hired(),
        save.chefs == run.staff.hired(SupportRole::Chef),
        save.unpackers == run.staff.hired(SupportRole::Unpacker),
        save.technologists == run.staff.hired(SupportRole::Technologist),
        save.research == run.research.points_bits(),
        save.carts == run.carts.carts_owned(),
        save.crewed == run.carts.aboard(),
        save.saved_at_ms == saved_at_ms,
        save.build@ == build@,
{
    Save {
        version: SAVE_VERSION,
        bananas: run.treasury.bananas(),
        workers: run.workforce.count(),
        chefs: run.staff.count(SupportRole::Chef),
        unpackers: run.staff.count(SupportRole::Unpacker),
        technologists: run.staff.count(SupportRole::Technologist),
        research: run.research.points(),
        carts: run.carts.owned(),
        crewed: run.carts.crewed(),
        saved_at_ms,
        build,
    }
}

/// The counts a run holds, as a save records them.
pub open spec fn counts_recorded(save: Save, run: SavedRun) -> bool {
    &&& save.bananas == run.treasury.balance_bits()
    &&& save.workers == run.workforce.hired()
    &&& save.chefs == run.staff.hired(SupportRole::Chef)
    &&& save.unpackers == run.staff.hired(SupportRole::Unpacker)
    &&& save.technologists == run.staff.hired(SupportRole::Technologist)
    &&& save.research == run.research.points_bits()
    &&& save.carts == run.carts.carts_owned()
    &&& save.crewed == run.carts.aboard()
}

/// A save round trip preserves the run: a payload recording a reachable run
/// restores, and what it restores to is that run and no other.
pub proof fn lemma_a_recorded_run_restores_as_itself(run: SavedRun, save: Save, restored: SavedRun)
    requires
        counts_recorded(save, run),
        restorable(save),
    ensures
        restores_to(save, restored) ==> restored == run,
{
    if restores_to(save, restored) {
        Staff::lemma_counts_determine_staff(restored.staff, run.staff);
        Workforce::lemma_count_determines_workforce(restored.workforce, run.workforce);
        Carts::lemma_counts_determine_carts(restored.carts, run.carts);
        Treasury::lemma_bits_determine_treasury(restored.treasury, run.treasury);
        Research::lemma_bits_determine_research(restored.research, run.research);
    }
}


/// An import is the load's own door, made stricter: pasted text imports only
/// when the payload read from it would load from the save slot and the text
/// also mentions part of a run, and then as the very run the load would
/// restore.
pub proof fn lemma_an_import_is_a_stricter_load(text: Seq<char>, decoded: Option<Save>, run: Option<SavedRun>)
    requires
        imported(text, decoded, run),
    ensures
        run is Some ==> loads(decoded),
        run matches Some(r) ==> (accepted(decoded) matches Some(save) && restores_to(save, r)),
        loads(decoded) && mentions_a_run(without_surrounding_space(text)) ==> run is Some,
{
}

/// A payload mentions a run exactly when it is a JSON object with at least
/// one of the run's eight fields: the balance, the workers, the three kinds of
/// support staff, the research, the carts or their crews.
pub proof fn lemma_a_run_is_mentioned_by_any_of_its_fields(text: Seq<char>)
    ensures
        mentions_a_run(text) <==> {
            ||| json_object_has(text, "bananas"@) == Some(true)
            ||| json_object_has(text, "workers"@) == Some(true)
            ||| json_object_has(text, "chefs"@) == Some(true)
            ||| json_object_has(text, "unpackers"@) == Some(true)
            ||| json_object_has(text, "technologists"@) == Some(true)
            ||| json_object_has(text, "research"@) == Some(true)
            ||| json_object_has(text, "carts"@) == Some(true)
            ||| json_object_has(text, "crewed"@) == Some(true)
        },
{
    if mentions_a_run(text) {
        let i = choose|i: int| 0 <= i < 8 && json_object_has(text, #[trigger] run_field_name(i)) == Some(true);
        assert(0 <= i < 8);
    }
    assert(run_field_name(0) == "bananas"@);
    assert(run_field_name(1) == "workers"@);
    assert(run_field_name(2) == "chefs"@);
    assert(run_field_name(3) == "unpackers"@);
    assert(run_field_name(4) == "technologists"@);
    assert(run_field_name(5) == "research"@);
    assert(run_field_name(6) == "carts"@);
    assert(run_field_name(7) == "crewed"@);
}

/// Pasted text that names any field of a run imports the run its payload
/// describes whenever that payload would load from the save slot.
pub proof fn lemma_a_pasted_field_of_a_run_imports(
    text: Seq<char>,
    decoded: Option<Save>,
    run: Option<SavedRun>,
    field: int,
)
    requires
        imported(text, decoded, run),
        loads(decoded),
        0 <= field < 8,
        json_object_has(without_surrounding_space(text), run_field_name(field)) == Some(true),
    ensures
        run is Some,
{
}

} // verus!
