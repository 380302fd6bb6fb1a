//! What the upkeep of sessions is made of: the passing of time, and retirements that are due.
use vstd::prelude::*;

verus! {

/// The time from `then` to `now`; none where `then` is the later one.
pub open spec fn elapsed(now: u64, then: u64) -> nat {
    if now >= then {
        (now - then) as nat
    } else {
        0
    }
}

/// The time from `then` to `now`.
pub fn elapsed_time(now: u64, then: u64) -> (time: u64)
    ensures
        time == elapsed(now, then),
{
    now.saturating_sub(then)
}

/// The model of an optional message.
pub open spec fn message_model(message: Option<&str>) -> Option<Seq<char>> {
    match message {
        Some(text) => Some(text@),
        None => None,
    }
}

/// A session that is to be retired, and what those concerned are told.
#[derive(Debug)]
pub struct DueRetirement {
    pub id: String,
    pub message: Option<&'static str>,
}

impl View for DueRetirement {
    type V = (Seq<char>, Option<Seq<char>>);

    open spec fn view(&self) -> (Seq<char>, Option<Seq<char>>) {
        (
            self.id@,
            match self.message {
                Some(text) => Some(text@),
                None => None,
            },
        )
    }
}

/// The models of some retirements that are due.
pub open spec fn due_models(due: Seq<DueRetirement>) -> Seq<(Seq<char>, Option<Seq<char>>)> {
    due.map_values(|retirement: DueRetirement| retirement@)
}

/// Whether a session is among those that are to be retired.
pub open spec fn is_due(due: Seq<(Seq<char>, Option<Seq<char>>)>, id: Seq<char>) -> bool {
    exists|i: int| 0 <= i < due.len() && (#[trigger] due[i]).0 == id
}

} // verus!
