use vstd::prelude::*;

verus! {

/// One study session of a user. `end_time` is `None` while the session is
/// still open.
#[derive(Clone, Copy, Debug, PartialEq, Eq)]
pub struct StudySession {
    pub user_id: u64,
    pub start_time: u64,
    pub end_time: Option<u64>,
}

/// The running total, in seconds, of a user's completed sessions.
#[derive(Clone, Copy, Debug, PartialEq, Eq)]
pub struct UserDuration {
    pub user_id: u64,
    pub total_duration: u64,
}

/// Why closing a session failed. The store is left unchanged in each case.
#[derive(Clone, Copy, Debug, PartialEq, Eq, Structural)]
pub enum StudyError {
    /// The user has no open session to close.
    NoOpenSession,
    /// The end time lies before the open session's start time.
    EndBeforeStart,
    /// The user's total would no longer fit in a `u64`.
    TotalOverflow,
}

/// Session `s` belongs to user `u` and is still open.
pub open spec fn is_open_for(s: StudySession, u: u64) -> bool {
    s.user_id == u && s.end_time is None
}

/// The log holds an open session of user `u`.
pub open spec fn has_open(log: Seq<StudySession>, u: u64) -> bool {
    exists|i: int| 0 <= i < log.len() && is_open_for(#[trigger] log[i], u)
}

/// The position of user `u`'s open session (meaningful when `has_open`).
pub open spec fn open_index(log: Seq<StudySession>, u: u64) -> int {
    choose|i: int| 0 <= i < log.len() && is_open_for(#[trigger] log[i], u)
}

/// No user has two open sessions.
pub open spec fn at_most_one_open(log: Seq<StudySession>) -> bool {
    forall|i: int, j: int|
        0 <= i < log.len() && 0 <= j < log.len() && (#[trigger] log[i]).end_time is None
            && (#[trigger] log[j]).end_time is None && log[i].user_id == log[j].user_id ==> i
            == j
}

/// Every session in the log is closed.
pub open spec fn no_open(log: Seq<StudySession>) -> bool {
    forall|i: int| 0 <= i < log.len() ==> (#[trigger] log[i]).end_time is Some
}

/// The closed sessions of `log`, in their order.
pub open spec fn closed_only(log: Seq<StudySession>) -> Seq<StudySession>
    decreases log.len(),
{
    if log.len() == 0 {
        Seq::empty()
    } else if log.last().end_time is Some {
        closed_only(log.drop_last()).push(log.last())
    } else {
        closed_only(log.drop_last())
    }
}

/// `ids` with every occurrence of `c` taken out, in order.
pub open spec fn without(ids: Seq<u64>, c: u64) -> Seq<u64>
    decreases ids.len(),
{
    if ids.len() == 0 {
        Seq::empty()
    } else if ids.last() != c {
        without(ids.drop_last(), c).push(ids.last())
    } else {
        without(ids.drop_last(), c)
    }
}

/// No two rows of totals belong to the same user.
pub open spec fn unique_users(rows: Seq<UserDuration>) -> bool {
    forall|i: int, j: int|
        0 <= i < rows.len() && 0 <= j < rows.len() && (#[trigger] rows[i]).user_id == (#[trigger] rows[j]).user_id ==> i == j
}

/// User `u` has a row of totals.
pub open spec fn has_row(rows: Seq<UserDuration>, u: u64) -> bool {
    exists|i: int| 0 <= i < rows.len() && (#[trigger] rows[i]).user_id == u
}

/// User `u`'s total: the value of its row, or zero where it has none.
pub open spec fn total_in(rows: Seq<UserDuration>, u: u64) -> nat {
    if has_row(rows, u) {
        rows[choose|i: int| 0 <= i < rows.len() && (#[trigger] rows[i]).user_id == u].total_duration as nat
    } else {
        0
    }
}

/// The persistent state: the session log, the study channels and the
/// totals.
pub struct StudyDb {
    sessions: Vec<StudySession>,
    channels: Vec<u64>,
    durations: Vec<UserDuration>,
}

impl StudyDb {
    /// The session log, oldest first.
    pub closed spec fn log(&self) -> Seq<StudySession> {
        self.sessions@
    }

    /// The study channels, duplicates included.
    pub closed spec fn study_channels(&self) -> Seq<u64> {
        self.channels@
    }

    /// The rows of totals.
    pub closed spec fn rows(&self) -> Seq<UserDuration> {
        self.durations@
    }

    /// The store's invariant: one row of totals per user, and at most one
    /// open session per user.
    pub open spec fn wf(&self) -> bool {
        unique_users(self.rows()) && at_most_one_open(self.log())
    }

    /// User `u`'s total in seconds.
    pub open spec fn total(&self, u: u64) -> nat {
        total_in(self.rows(), u)
    }

    /// A copy of the session log, for saving.
    pub fn sessions(&self) -> (r: Vec<StudySession>)
        ensures
            r@ == self.log(),
    {
        let r = self.sessions.clone();
        assert(r@ =~= self.sessions@);
        r
    }

    /// A copy of the study channels, for saving.
    pub fn channels(&self) -> (r: Vec<u64>)
        ensures
            r@ == self.study_channels(),
    {
        let r = self.channels.clone();
        assert(r@ =~= self.channels@);
        r
    }

    /// A copy of the rows of totals, for saving.
    pub fn durations(&self) -> (r: Vec<UserDuration>)
        ensures
            r@ == self.rows(),
    {
        let r = self.durations.clone();
        assert(r@ =~= self.durations@);
        r
    }

    /// A store from saved rows, or `None` where they break its invariant:
    /// two rows of totals for one user, or two open sessions of one user.
    pub fn from_rows(
        sessions: Vec<StudySession>,
        channels: Vec<u64>,
        durations: Vec<UserDuration>,
    ) -> (r: Option<StudyDb>)
        ensures
            r is Some <==> unique_users(durations@) && at_most_one_open(sessions@),
            r matches Some(db) ==> db.log() == sessions@ && db.study_channels() == channels@
                && db.rows() == durations@,
    {
        let mut i: usize = 0;
        while i < durations.len()
            invariant
                i <= durations@.len(),
                forall|a: int, b: int|
                    0 <= a < i && 0 <= b < durations@.len() && (#[trigger] durations@[a]).user_id
                        == (#[trigger] durations@[b]).user_id ==> a == b,
            decreases durations@.len() - i,
        {
            let mut j: usize = 0;
            while j < durations.len()
                invariant
                    i < durations@.len(),
                    j <= durations@.len(),
                    forall|b: int|
                        0 <= b < j && durations@[i as int].user_id == (#[trigger] durations@[b]).user_id ==> b == i,
                decreases durations@.len() - j,
            {
                if j != i && durations[j].user_id == durations[i].user_id {
                    return None;
                }
                j = j + 1;
            }
            i = i + 1;
        }
        let mut i: usize = 0;
        while i < sessions.len()
            invariant
                unique_users(durations@),
                i <= sessions@.len(),
                forall|a: int, b: int|
                    0 <= a < i && 0 <= b < sessions@.len() && (#[trigger] sessions@[a]).end_time is None
                        && (#[trigger] sessions@[b]).end_time is None && sessions@[a].user_id
                        == sessions@[b].user_id ==> a == b,
            decreases sessions@.len() - i,
        {
            if sessions[i].end_time.is_none() {
                let mut j: usize = 0;
                while j < sessions.len()
                    invariant
                        i < sessions@.len(),
                        sessions@[i as int].end_time is None,
                        j <= sessions@.len(),
                        forall|b: int|
                            0 <= b < j && (#[trigger] sessions@[b]).end_time is None
                                && sessions@[i as int].user_id == sessions@[b].user_id ==> b == i,
                    decreases sessions@.len() - j,
                {
                    if j != i && sessions[j].end_time.is_none() && sessions[j].user_id == sessions[i].user_id {
                        return None;
                    }
                    j = j + 1;
                }
            }
            i = i + 1;
        }
        Some(StudyDb { sessions, channels, durations })
    }

    /// An empty store.
    pub fn new() -> (r: StudyDb)
        ensures
            r.wf(),
            r.log() == Seq::<StudySession>::empty(),
            r.study_channels() == Seq::<u64>::empty(),
            r.rows() == Seq::<UserDuration>::empty(),
    {
        StudyDb { sessions: Vec::new(), channels: Vec::new(), durations: Vec::new() }
    }
}

/// Whether `channel_id` is a study channel.
pub fn is_study_channel(db: &StudyDb, channel_id: u64) -> (r: bool)
    ensures
        r == db.study_channels().contains(channel_id),
{
    let mut i: usize = 0;
    while i < db.channels.len()
        invariant
            i <= db.channels@.len(),
            forall|k: int| 0 <= k < i ==> db.channels@[k] != channel_id,
        decreases db.channels@.len() - i,
    {
        if db.channels[i] == channel_id {
            assert(db.study_channels()[i as int] == channel_id);
            return true;
        }
        i = i + 1;
    }
    false
}

/// Marks `channel_id` as a study channel. A repeated add leaves a duplicate, which
/// membership ignores.
pub fn add_study_channel(db: &mut StudyDb, channel_id: u64)
    ensures
        final(db).study_channels() == old(db).study_channels().push(channel_id),
        final(db).log() == old(db).log(),
        final(db).rows() == old(db).rows(),
        totals_never_drop(*old(db), *final(db)),
{
    db.channels.push(channel_id);
}

/// Stops counting `channel_id` as a study channel: every occurrence of it is removed.
pub fn remove_study_channel(db: &mut StudyDb, channel_id: u64)
    ensures
        final(db).study_channels() == without(old(db).study_channels(), channel_id),
        !final(db).study_channels().contains(channel_id),
        final(db).log() == old(db).log(),
        final(db).rows() == old(db).rows(),
        totals_never_drop(*old(db), *final(db)),
{
    let ghost before = db.channels@;
    let mut kept: Vec<u64> = Vec::new();
    let mut i: usize = 0;
    while i < db.channels.len()
        invariant
            db.channels@ == before,
            i <= before.len(),
            kept@ == without(before.take(i as int), channel_id),
        decreases before.len() - i,
    {
        let c = db.channels[i];
        proof {
            assert(before.take(i + 1).drop_last() =~= before.take(i as int));
        }
        if c != channel_id {
            kept.push(c);
        }
        i = i + 1;
    }
    proof {
        assert(before.take(before.len() as int) =~= before);
        lemma_without_drops(before, channel_id);
    }
    db.channels = kept;
}

proof fn lemma_without_drops(ids: Seq<u64>, c: u64)
    ensures
        !without(ids, c).contains(c),
    decreases ids.len(),
{
    if ids.len() > 0 {
        lemma_without_drops(ids.drop_last(), c);
        let rest = without(ids.drop_last(), c);
        if ids.last() != c {
            assert(forall|k: int| 0 <= k < rest.len() ==> rest.push(ids.last())[k] == rest[k]);
        }
    }
}

/// Under `at_most_one_open`, an open session of `u` sits at `open_index`.
proof fn lemma_open_index(log: Seq<StudySession>, i: int, u: u64)
    requires
        at_most_one_open(log),
        0 <= i < log.len(),
        is_open_for(log[i], u),
    ensures
        has_open(log, u),
        open_index(log, u) == i,
{
    assert(has_open(log, u));
    let j = open_index(log, u);
    assert(log[j].end_time is None && log[i].end_time is None);
}

/// Under `unique_users`, the row at `k` gives its user's total.
proof fn lemma_total_at(rows: Seq<UserDuration>, k: int)
    requires
        unique_users(rows),
        0 <= k < rows.len(),
    ensures
        has_row(rows, rows[k].user_id),
        total_in(rows, rows[k].user_id) == rows[k].total_duration,
{
    let u = rows[k].user_id;
    assert(has_row(rows, u));
    let j = choose|i: int| 0 <= i < rows.len() && (#[trigger] rows[i]).user_id == u;
    assert(rows[j].user_id == rows[k].user_id);
}

/// Dropping the open sessions keeps only closed ones.
proof fn lemma_closed_only(log: Seq<StudySession>)
    ensures
        no_open(closed_only(log)),
    decreases log.len(),
{
    if log.len() > 0 {
        lemma_closed_only(log.drop_last());
    }
}

/// The position of user `u`'s open session, if it has one.
pub(crate) fn find_open(db: &StudyDb, u: u64) -> (r: Option<usize>)
    requires
        db.wf(),
    ensures
        r is None ==> !has_open(db.log(), u),
        r matches Some(i) ==> i < db.log().len() && is_open_for(db.log()[i as int], u)
            && open_index(db.log(), u) == i,
{
    let mut i: usize = 0;
    while i < db.sessions.len()
        invariant
            db.wf(),
            i <= db.sessions@.len(),
            forall|k: int| 0 <= k < i ==> !is_open_for(#[trigger] db.sessions@[k], u),
        decreases db.sessions@.len() - i,
    {
        let s = db.sessions[i];
        if s.user_id == u && s.end_time.is_none() {
            proof {
                lemma_open_index(db.log(), i as int, u);
            }
            return Some(i);
        }
        i = i + 1;
    }
    None
}

/// The position of user `u`'s row of totals, if it has one.
fn find_row(db: &StudyDb, u: u64) -> (r: Option<usize>)
    requires
        db.wf(),
    ensures
        r is None ==> !has_row(db.rows(), u) && db.total(u) == 0,
        r matches Some(k) ==> k < db.rows().len() && db.rows()[k as int].user_id == u
            && db.total(u) == db.rows()[k as int].total_duration,
{
    let mut k: usize = 0;
    while k < db.durations.len()
        invariant
            db.wf(),
            k <= db.durations@.len(),
            forall|j: int| 0 <= j < k ==> (#[trigger] db.durations@[j]).user_id != u,
        decreases db.durations@.len() - k,
    {
        if db.durations[k].user_id == u {
            proof {
                lemma_total_at(db.rows(), k as int);
            }
            return Some(k);
        }
        k = k + 1;
    }
    None
}

/// Appending a row for a user without one: that user's total is the new
/// row's, every other total is kept.
proof fn lemma_rows_push(rows: Seq<UserDuration>, v: UserDuration)
    requires
        unique_users(rows),
        !has_row(rows, v.user_id),
    ensures
        unique_users(rows.push(v)),
        has_row(rows.push(v), v.user_id),
        total_in(rows.push(v), v.user_id) == v.total_duration,
        forall|u: u64| u != v.user_id ==> #[trigger] total_in(rows.push(v), u) == total_in(rows, u),
{
    let new = rows.push(v);
    let n = rows.len() as int;
    assert(new[n] == v);
    assert forall|i: int, j: int|
        0 <= i < new.len() && 0 <= j < new.len() && (#[trigger] new[i]).user_id
            == (#[trigger] new[j]).user_id implies i == j by {
        if i < n && j < n {
            assert(rows[i] == new[i] && rows[j] == new[j]);
        }
        if i < n && j == n {
            assert(rows[i].user_id == v.user_id);
        }
        if j < n && i == n {
            assert(rows[j].user_id == v.user_id);
        }
    }
    lemma_total_at(new, n);
    assert forall|u: u64| u != v.user_id implies #[trigger] total_in(new, u) == total_in(rows, u) by {
        if has_row(rows, u) {
            let k = choose|i: int| 0 <= i < rows.len() && (#[trigger] rows[i]).user_id == u;
            lemma_total_at(rows, k);
            assert(new[k] == rows[k]);
            lemma_total_at(new, k);
        } else {
            assert forall|k: int| 0 <= k < new.len() implies (#[trigger] new[k]).user_id != u by {
                if k < n {
                    assert(new[k] == rows[k]);
                }
            }
        }
    }
}

/// Replacing the row at `k` by one of the same user: that user's total is
/// the new row's, every other total is kept.
proof fn lemma_rows_set(rows: Seq<UserDuration>, k: int, v: UserDuration)
    requires
        unique_users(rows),
        0 <= k < rows.len(),
        rows[k].user_id == v.user_id,
    ensures
        unique_users(rows.update(k, v)),
        has_row(rows.update(k, v), v.user_id),
        total_in(rows.update(k, v), v.user_id) == v.total_duration,
        forall|u: u64| u != v.user_id ==> #[trigger] total_in(rows.update(k, v), u) == total_in(rows, u),
{
    let new = rows.update(k, v);
    assert forall|i: int, j: int|
        0 <= i < new.len() && 0 <= j < new.len() && (#[trigger] new[i]).user_id
            == (#[trigger] new[j]).user_id implies i == j by {
        assert(new[i].user_id == rows[i].user_id && new[j].user_id == rows[j].user_id);
    }
    lemma_total_at(new, k);
    assert forall|u: u64| u != v.user_id implies #[trigger] total_in(new, u) == total_in(rows, u) by {
        if has_row(rows, u) {
            let j = choose|i: int| 0 <= i < rows.len() && (#[trigger] rows[i]).user_id == u;
            lemma_total_at(rows, j);
            assert(new[j] == rows[j]);
            lemma_total_at(new, j);
        } else {
            assert forall|j: int| 0 <= j < new.len() implies (#[trigger] new[j]).user_id != u by {
                assert(new[j].user_id == rows[j].user_id);
            }
        }
    }
}

/// Start time of user `u`'s open session (meaningful when `has_open`).
pub open spec fn open_start(log: Seq<StudySession>, u: u64) -> u64 {
    log[open_index(log, u)].start_time
}

/// Session `s` closed at `t`.
pub open spec fn closed_at(s: StudySession, t: u64) -> StudySession {
    StudySession { end_time: Some(t), ..s }
}

/// What closing user `u`'s session at `t` gives, from the log and the
/// user's total before the call: the length to add, or why nothing is done.
pub open spec fn close_result(log: Seq<StudySession>, total: nat, u: u64, t: u64) -> Result<u64, StudyError> {
    if !has_open(log, u) {
        Err(StudyError::NoOpenSession)
    } else if t < open_start(log, u) {
        Err(StudyError::EndBeforeStart)
    } else if total + (t - open_start(log, u)) > u64::MAX {
        Err(StudyError::TotalOverflow)
    } else {
        Ok((t - open_start(log, u)) as u64)
    }
}

/// `after` is `before` with user `u`'s open session closed at `t` and `d`
/// added to the user's total, every other total kept.
pub open spec fn session_closed(before: StudyDb, after: StudyDb, u: u64, t: u64, d: u64) -> bool {
    let i = open_index(before.log(), u);
    &&& after.log() == before.log().update(i, closed_at(before.log()[i], t))
    &&& has_row(after.rows(), u)
    &&& after.total(u) == before.total(u) + d
    &&& forall|w: u64| w != u ==> #[trigger] after.total(w) == before.total(w)
}

/// No user's total is smaller in `after` than in `before`.
pub open spec fn totals_never_drop(before: StudyDb, after: StudyDb) -> bool {
    forall|u: u64| #[trigger] after.total(u) >= before.total(u)
}

/// Closes user `user_id`'s open session at `end_time` and adds its length
/// to the user's total, in one step: on success both happen, on failure
/// neither. Returns the length added.
pub fn log_end_time(db: &mut StudyDb, user_id: u64, end_time: u64) -> (r: Result<u64, StudyError>)
    requires
        old(db).wf(),
    ensures
        final(db).wf(),
        final(db).study_channels() == old(db).study_channels(),
        r == close_result(old(db).log(), old(db).total(user_id), user_id, end_time),
        r matches Ok(d) ==> session_closed(*old(db), *final(db), user_id, end_time, d),
        r is Err ==> final(db).log() == old(db).log() && final(db).rows() == old(db).rows(),
        totals_never_drop(*old(db), *final(db)),
{
    let i = match find_open(db, user_id) {
        Some(i) => i,
        None => {
            return Err(StudyError::NoOpenSession);
        },
    };
    let s = db.sessions[i];
    if end_time < s.start_time {
        return Err(StudyError::EndBeforeStart);
    }
    let delta = end_time - s.start_time;
    let ghost old_rows = db.durations@;
    match find_row(db, user_id) {
        Some(k) => {
            let cur = db.durations[k].total_duration;
            if cur > u64::MAX - delta {
                return Err(StudyError::TotalOverflow);
            }
            let v = UserDuration { user_id, total_duration: cur + delta };
            proof {
                lemma_rows_set(old_rows, k as int, v);
            }
            db.durations.set(k, v);
        },
        None => {
            let v = UserDuration { user_id, total_duration: delta };
            proof {
                lemma_rows_push(old_rows, v);
            }
            db.durations.push(v);
        },
    }
    let ghost old_log = db.sessions@;
    db.sessions.set(i, StudySession { user_id: s.user_id, start_time: s.start_time, end_time: Some(end_time) });
    proof {
        let log = db.sessions@;
        assert(log =~= old_log.update(i as int, closed_at(old_log[i as int], end_time)));
        assert forall|a: int, b: int|
            0 <= a < log.len() && 0 <= b < log.len() && (#[trigger] log[a]).end_time is None
                && (#[trigger] log[b]).end_time is None && log[a].user_id == log[b].user_id implies a == b by {
            assert(old_log[a] == log[a] && old_log[b] == log[b]);
        }
    }
    Ok(delta)
}

/// Startup recovery: deletes every open session. Sessions left open by an
/// earlier run cannot be checked, so they count for nothing.
pub fn startup(db: &mut StudyDb)
    requires
        old(db).wf(),
    ensures
        final(db).wf(),
        final(db).log() == closed_only(old(db).log()),
        no_open(final(db).log()),
        final(db).study_channels() == old(db).study_channels(),
        final(db).rows() == old(db).rows(),
        totals_never_drop(*old(db), *final(db)),
{
    let ghost before = db.sessions@;
    let mut kept: Vec<StudySession> = Vec::new();
    let mut i: usize = 0;
    while i < db.sessions.len()
        invariant
            db.sessions@ == before,
            i <= before.len(),
            kept@ == closed_only(before.take(i as int)),
        decreases before.len() - i,
    {
        let s = db.sessions[i];
        proof {
            assert(before.take(i + 1).drop_last() =~= before.take(i as int));
        }
        if s.end_time.is_some() {
            kept.push(s);
        }
        i = i + 1;
    }
    proof {
        assert(before.take(before.len() as int) =~= before);
        lemma_closed_only(before);
    }
    db.sessions = kept;
}

/// Opens a session for `user_id` at `start_time`, and gives the user a row
/// of totals at zero if it had none. Opening a second session for a user
/// with one open is the caller's error.
pub fn log_start_time(db: &mut StudyDb, user_id: u64, start_time: u64)
    requires
        old(db).wf(),
        !has_open(old(db).log(), user_id),
    ensures
        final(db).wf(),
        final(db).log() == old(db).log().push(
            StudySession { user_id, start_time, end_time: None },
        ),
        final(db).study_channels() == old(db).study_channels(),
        has_open(final(db).log(), user_id),
        has_row(final(db).rows(), user_id),
        has_row(old(db).rows(), user_id) ==> final(db).rows() == old(db).rows(),
        !has_row(old(db).rows(), user_id) ==> final(db).rows() == old(db).rows().push(
            UserDuration { user_id, total_duration: 0 },
        ),
        forall|u: u64| #[trigger] final(db).total(u) == old(db).total(u),
        totals_never_drop(*old(db), *final(db)),
{
    let ghost old_log = db.sessions@;
    let ghost old_rows = db.durations@;
    let row = find_row(db, user_id);
    db.sessions.push(StudySession { user_id, start_time, end_time: None });
    proof {
        let log = db.sessions@;
        assert(is_open_for(log[log.len() - 1], user_id));
        assert forall|i: int, j: int|
            0 <= i < log.len() && 0 <= j < log.len() && (#[trigger] log[i]).end_time is None
                && (#[trigger] log[j]).end_time is None && log[i].user_id == log[j].user_id implies i == j by {
            if i < old_log.len() && j == old_log.len() {
                assert(is_open_for(old_log[i], user_id));
            }
            if j < old_log.len() && i == old_log.len() {
                assert(is_open_for(old_log[j], user_id));
            }
            if i < old_log.len() && j < old_log.len() {
                assert(old_log[i] == log[i] && old_log[j] == log[j]);
            }
        }
    }
    if row.is_none() {
        db.durations.push(UserDuration { user_id, total_duration: 0 });
        proof {
            lemma_rows_push(old_rows, UserDuration { user_id, total_duration: 0 });
        }
    }
}

/// User `user_id`'s total in seconds; zero for a user never seen.
pub fn get_total_study_duration(db: &StudyDb, user_id: u64) -> (r: u64)
    requires
        db.wf(),
    ensures
        r == db.total(user_id),
{
    match find_row(db, user_id) {
        Some(k) => db.durations[k].total_duration,
        None => 0,
    }
}

/// Leaderboard order: a larger total first; between equal totals, the
/// smaller user id first.
pub open spec fn ranks_before(a: (u64, u64), b: (u64, u64)) -> bool {
    a.1 > b.1 || (a.1 == b.1 && a.0 < b.0)
}

/// A row as a leaderboard entry `(user_id, total_duration)`.
pub open spec fn entry_of(r: UserDuration) -> (u64, u64) {
    (r.user_id, r.total_duration)
}

/// Each entry ranks strictly before the next.
pub open spec fn strictly_ranked(s: Seq<(u64, u64)>) -> bool {
    forall|i: int, j: int| 0 <= i < j < s.len() ==> ranks_before(#[trigger] s[i], #[trigger] s[j])
}

/// Every entry of `s` comes from a row of `rows`.
pub open spec fn all_from(s: Seq<(u64, u64)>, rows: Seq<UserDuration>) -> bool {
    forall|i: int|
        0 <= i < s.len() ==> exists|k: int| 0 <= k < rows.len() && #[trigger] s[i] == entry_of(#[trigger] rows[k])
}

/// No row that ranks before the last entry of `s` is missing from `s`.
pub open spec fn none_skipped(s: Seq<(u64, u64)>, rows: Seq<UserDuration>) -> bool {
    forall|k: int|
        0 <= k < rows.len() && s.len() > 0 && ranks_before(entry_of(#[trigger] rows[k]), s.last())
            ==> s.contains(entry_of(rows[k]))
}

/// `s` lists the `n` first rows of `rows` in leaderboard order: at most `n`
/// entries, each from a row, each ranked strictly before the next, none
/// left out that ranks before the last, and fewer than `n` only when every
/// row is listed.
pub open spec fn is_top(s: Seq<(u64, u64)>, rows: Seq<UserDuration>, n: nat) -> bool {
    &&& s.len() <= n
    &&& strictly_ranked(s)
    &&& all_from(s, rows)
    &&& none_skipped(s, rows)
    &&& s.len() < n ==> forall|k: int| 0 <= k < rows.len() ==> s.contains(entry_of(#[trigger] rows[k]))
}

/// The `n` highest totals, as `(user_id, total_duration)`, highest first;
/// equal totals in ascending user id.
pub fn top_n(db: &StudyDb, n: usize) -> (r: Vec<(u64, u64)>)
    ensures
        is_top(r@, db.rows(), n as nat),
{
    let rows = &db.durations;
    let mut out: Vec<(u64, u64)> = Vec::new();
    while out.len() < n
        invariant
            rows@ == db.rows(),
            out@.len() <= n,
            strictly_ranked(out@),
            all_from(out@, rows@),
            none_skipped(out@, rows@),
        decreases n - out@.len(),
    {
        let mut best: Option<(u64, u64)> = None;
        let mut k: usize = 0;
        while k < rows.len()
            invariant
                rows@ == db.rows(),
                k <= rows@.len(),
                best matches Some(b) ==> ((out@.len() == 0 || ranks_before(out@.last(), b))
                    && exists|j: int| 0 <= j < rows@.len() && b == entry_of(#[trigger] rows@[j])),
                forall|j: int|
                    0 <= j < k && (out@.len() == 0 || ranks_before(out@.last(), entry_of(#[trigger] rows@[j])))
                    ==> (best matches Some(b) && (b == entry_of(rows@[j]) || ranks_before(b, entry_of(rows@[j])))),
            decreases rows@.len() - k,
        {
            let e = (rows[k].user_id, rows[k].total_duration);
            let after_last = out.len() == 0 || {
                let l = out[out.len() - 1];
                e.1 < l.1 || (e.1 == l.1 && e.0 > l.0)
            };
            if after_last {
                let better = match best {
                    None => true,
                    Some(b) => e.1 > b.1 || (e.1 == b.1 && e.0 < b.0),
                };
                if better {
                    best = Some(e);
                }
            }
            assert(e == entry_of(rows@[k as int]));
            k = k + 1;
        }
        match best {
            None => {
                proof {
                    assert forall|j: int| 0 <= j < rows@.len() implies out@.contains(entry_of(#[trigger] rows@[j])) by {
                        let e = entry_of(rows@[j]);
                        if !ranks_before(e, out@.last()) {
                            assert(e == out@.last());
                            assert(out@[out@.len() - 1] == e);
                        }
                    }
                }
                return out;
            },
            Some(b) => {
                let ghost prev = out@;
                out.push(b);
                proof {
                    assert(out@.last() == b);
                    assert forall|i: int, j: int| 0 <= i < j < out@.len() implies ranks_before(#[trigger] out@[i], #[trigger] out@[j]) by {
                        if j < prev.len() {
                            assert(out@[i] == prev[i] && out@[j] == prev[j]);
                        } else {
                            assert(out@[i] == prev[i]);
                            if i < prev.len() - 1 {
                                assert(ranks_before(prev[i], prev.last()));
                            }
                        }
                    }
                    assert forall|i: int| 0 <= i < out@.len() implies exists|k: int| 0 <= k < rows@.len() && #[trigger] out@[i] == entry_of(#[trigger] rows@[k]) by {
                        if i < prev.len() {
                            assert(out@[i] == prev[i]);
                        }
                    }
                    assert forall|j: int| 0 <= j < rows@.len() && ranks_before(entry_of(#[trigger] rows@[j]), out@.last()) implies out@.contains(entry_of(rows@[j])) by {
                        let e = entry_of(rows@[j]);
                        if prev.len() > 0 && (ranks_before(e, prev.last()) || e == prev.last()) {
                            if ranks_before(e, prev.last()) {
                                assert(prev.contains(e));
                            } else {
                                assert(prev[prev.len() - 1] == e);
                            }
                            let w2 = choose|w: int| 0 <= w < prev.len() && prev[w] == e;
                            assert(out@[w2] == e);
                        }
                    }
                }
            },
        }
    }
    out
}

/// The ten highest totals, highest first, ties in ascending user id.
pub fn get_leaderboard(db: &StudyDb) -> (r: Vec<(u64, u64)>)
    ensures
        is_top(r@, db.rows(), 10),
{
    top_n(db, 10)
}

} // verus!
