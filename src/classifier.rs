use crate::db::{
    close_result, find_open, has_open, has_row, is_study_channel, log_end_time, log_start_time,
    session_closed, totals_never_drop, StudyDb, StudyError, StudySession,
};
use vstd::prelude::*;

verus! {

/// What a presence change means for a user's study time.
#[derive(Clone, Copy, Debug, PartialEq, Eq, Structural)]
pub enum Transition {
    /// From outside every study channel into one.
    Enter,
    /// From a study channel to outside every study channel.
    Exit,
    /// Neither: between two study channels, or between two others.
    NoOp,
}

/// The transition for a change from a location that was (or was not) a
/// study channel to one that is (or is not).
pub open spec fn transition_of(was_study: bool, is_study: bool) -> Transition {
    if !was_study && is_study {
        Transition::Enter
    } else if was_study && !is_study {
        Transition::Exit
    } else {
        Transition::NoOp
    }
}

/// Whether a location counts as a study channel; no location never does.
pub open spec fn in_study(db: StudyDb, channel: Option<u64>) -> bool {
    channel matches Some(c) && db.study_channels().contains(c)
}

/// Classifies a presence change.
pub fn classify(was_study: bool, is_study: bool) -> (r: Transition)
    ensures
        r == transition_of(was_study, is_study),
        was_study == is_study ==> r == Transition::NoOp,
{
    match (was_study, is_study) {
        (false, true) => Transition::Enter,
        (true, false) => Transition::Exit,
        _ => Transition::NoOp,
    }
}

fn location_in_study(db: &StudyDb, channel: Option<u64>) -> (r: bool)
    ensures
        r == in_study(*db, channel),
{
    match channel {
        Some(c) => is_study_channel(db, c),
        None => false,
    }
}

/// Handles user `user_id` moving from `old_channel` to `new_channel` at
/// `timestamp` (`None`: not connected anywhere). Entering opens a session,
/// unless one is already open, which then runs on; leaving closes it and
/// adds its length to the total in one step; any other change does nothing.
/// Returns the transition, or why closing failed, with nothing changed.
pub fn handle_voice_update(
    db: &mut StudyDb,
    user_id: u64,
    old_channel: Option<u64>,
    new_channel: Option<u64>,
    timestamp: u64,
) -> (r: Result<Transition, StudyError>)
    requires
        old(db).wf(),
    ensures
        final(db).wf(),
        final(db).study_channels() == old(db).study_channels(),
        totals_never_drop(*old(db), *final(db)),
        ({
            let t = transition_of(in_study(*old(db), old_channel), in_study(*old(db), new_channel));
            let closing = close_result(old(db).log(), old(db).total(user_id), user_id, timestamp);
            &&& t == Transition::NoOp ==> r == Ok::<Transition, StudyError>(Transition::NoOp)
            &&& t == Transition::Enter ==> r == Ok::<Transition, StudyError>(Transition::Enter)
            &&& t == Transition::Enter && !has_open(old(db).log(), user_id) ==> {
                &&& final(db).log() == old(db).log().push(
                    StudySession { user_id, start_time: timestamp, end_time: None },
                )
                &&& has_row(final(db).rows(), user_id)
                &&& forall|u: u64| #[trigger] final(db).total(u) == old(db).total(u)
            }
            &&& t == Transition::Exit ==> match closing {
                Ok(d) => r == Ok::<Transition, StudyError>(Transition::Exit) && session_closed(
                    *old(db),
                    *final(db),
                    user_id,
                    timestamp,
                    d,
                ),
                Err(e) => r == Err::<Transition, StudyError>(e),
            }
            &&& (t == Transition::NoOp || (t == Transition::Enter && has_open(old(db).log(), user_id))
                || r is Err) ==> final(db).log() == old(db).log() && final(db).rows() == old(
                db,
            ).rows()
        }),
{
    let was_study = location_in_study(db, old_channel);
    let is_study = location_in_study(db, new_channel);
    match classify(was_study, is_study) {
        Transition::Enter => {
            if find_open(db, user_id).is_none() {
                log_start_time(db, user_id, timestamp);
            }
            Ok(Transition::Enter)
        },
        Transition::Exit => match log_end_time(db, user_id, timestamp) {
            Ok(_) => Ok(Transition::Exit),
            Err(e) => Err(e),
        },
        Transition::NoOp => Ok(Transition::NoOp),
    }
}

} // verus!
