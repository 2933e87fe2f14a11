//! Saved-schedule summaries and the stored form of the mode.
use vstd::prelude::*;
use vstd::string::*;
use crate::types::ScheduleMode;

verus! {

/// A saved schedule as the list of saved schedules shows it.
#[derive(Clone, Debug)]
pub struct ScheduleSummary {
    pub id: String,
    pub name: String,
    pub mode: String,
    pub available_time: u32,
}

/// The stored name of a mode.
pub open spec fn mode_name(mode: ScheduleMode) -> Seq<char> {
    match mode {
        ScheduleMode::Serenity => "serenity"@,
        ScheduleMode::Crunch => "crunch"@,
    }
}

/// Whether two strings have the same characters.
pub fn same_text(a: &str, b: &str) -> (r: bool)
    ensures
        r == (a@ == b@),
{
    String::from_str(a) == String::from_str(b)
}

impl ScheduleMode {
    /// The stored name: "serenity" or "crunch".
    pub fn name(&self) -> (s: &'static str)
        ensures
            s@ == mode_name(*self),
    {
        match self {
            ScheduleMode::Serenity => "serenity",
            ScheduleMode::Crunch => "crunch",
        }
    }

    /// Reads a stored mode: "crunch" is Crunch, anything else Serenity.
    pub fn from_name(name: &str) -> (m: ScheduleMode)
        ensures
            m == (if name@ == "crunch"@ {
                ScheduleMode::Crunch
            } else {
                ScheduleMode::Serenity
            }),
    {
        if same_text(name, "crunch") {
            ScheduleMode::Crunch
        } else {
            ScheduleMode::Serenity
        }
    }
}

/// Builds a summary from the fields a stored document holds: without an id
/// there is none; a missing name reads "Untitled", a missing mode
/// "serenity", a missing available time 240 minutes.
pub fn summary_from_fields(
    id: Option<String>,
    name: Option<String>,
    mode: Option<String>,
    available_time: Option<u32>,
) -> (r: Option<ScheduleSummary>)
    ensures
        id is None ==> r is None,
        id is Some ==> r is Some && r->0.id@ == id->0@ && r->0.name@ == (match name {
            Some(n) => n@,
            None => "Untitled"@,
        }) && r->0.mode@ == (match mode {
            Some(m) => m@,
            None => "serenity"@,
        }) && r->0.available_time == (match available_time {
            Some(t) => t,
            None => 240,
        }),
{
    let id = match id {
        Some(s) => s,
        None => return None,
    };
    let name = match name {
        Some(s) => s,
        None => String::from_str("Untitled"),
    };
    let mode = match mode {
        Some(s) => s,
        None => String::from_str("serenity"),
    };
    let available_time = match available_time {
        Some(t) => t,
        None => 240,
    };
    Some(ScheduleSummary { id, name, mode, available_time })
}

/// Storing a mode and reading it back gives the same mode.
pub proof fn lemma_mode_name_round_trip(mode: ScheduleMode)
    ensures
        (if mode_name(mode) == "crunch"@ {
            ScheduleMode::Crunch
        } else {
            ScheduleMode::Serenity
        }) == mode,
{
    reveal_strlit("crunch");
    reveal_strlit("serenity");
    assert("serenity"@[0] != "crunch"@[0]);
}

} // verus!
