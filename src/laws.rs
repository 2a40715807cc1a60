use crate::db::{
    all_from, entry_of, is_top, none_skipped, ranks_before, strictly_ranked, UserDuration,
    closed_at, closed_only, has_open, open_index, session_closed, totals_never_drop, StudyDb,
    StudySession,
};
use vstd::prelude::*;

verus! {

/// Over any run of the store, each step of which keeps every total or
/// raises it (as each mutating operation ensures), no user's total ever
/// drops between the first state and the last.
pub proof fn lemma_totals_never_drop_over_a_run(states: Seq<StudyDb>)
    requires
        states.len() > 0,
        forall|i: int| 0 <= i < states.len() - 1 ==> totals_never_drop(#[trigger] states[i], states[i + 1]),
    ensures
        totals_never_drop(states[0], states.last()),
    decreases states.len(),
{
    if states.len() > 1 {
        let shorter = states.drop_last();
        assert forall|i: int| 0 <= i < shorter.len() - 1 implies totals_never_drop(#[trigger] shorter[i], shorter[i + 1]) by {
            assert(shorter[i] == states[i] && shorter[i + 1] == states[i + 1]);
        }
        lemma_totals_never_drop_over_a_run(shorter);
        assert(totals_never_drop(states[states.len() - 2], states.last()));
    }
}

/// Recovery keeps every closed session.
pub proof fn lemma_recovery_keeps_closed(log: Seq<StudySession>, s: StudySession)
    requires
        log.contains(s),
        s.end_time is Some,
    ensures
        closed_only(log).contains(s),
    decreases log.len(),
{
    if log.last() == s {
        assert(closed_only(log).last() == s);
    } else {
        let k = choose|k: int| 0 <= k < log.len() && log[k] == s;
        assert(log.drop_last()[k] == s);
        lemma_recovery_keeps_closed(log.drop_last(), s);
        let rest = closed_only(log.drop_last());
        let j = choose|j: int| 0 <= j < rest.len() && rest[j] == s;
        if log.last().end_time is Some {
            assert(rest.push(log.last())[j] == s);
        }
    }
}

/// Closing a session and adding its length is one step, and recovery run
/// after it neither loses nor repeats that length: the total afterwards is
/// the total before the close plus the length, and the closed session is
/// still in the log.
pub proof fn lemma_closing_survives_recovery(
    before: StudyDb,
    closed: StudyDb,
    recovered: StudyDb,
    u: u64,
    t: u64,
    d: u64,
)
    requires
        before.wf(),
        has_open(before.log(), u),
        session_closed(before, closed, u, t, d),
        recovered.log() == closed_only(closed.log()),
        recovered.rows() == closed.rows(),
    ensures
        recovered.total(u) == before.total(u) + d,
        forall|w: u64| w != u ==> #[trigger] recovered.total(w) == before.total(w),
        recovered.log().contains(closed_at(before.log()[open_index(before.log(), u)], t)),
{
    let i = open_index(before.log(), u);
    let s = closed_at(before.log()[i], t);
    assert(closed.log()[i] == s);
    lemma_recovery_keeps_closed(closed.log(), s);
    assert forall|w: u64| #[trigger] recovered.total(w) == closed.total(w) by {}
}

/// Two leaderboards of the same rows and size agree up to position `i`.
proof fn lemma_tops_agree_up_to(
    a: Seq<(u64, u64)>,
    b: Seq<(u64, u64)>,
    rows: Seq<UserDuration>,
    n: nat,
    i: int,
)
    requires
        is_top(a, rows, n),
        is_top(b, rows, n),
        0 <= i <= a.len(),
        i <= b.len(),
    ensures
        forall|j: int| 0 <= j < i ==> a[j] == b[j],
    decreases i,
{
    if i > 0 {
        lemma_tops_agree_up_to(a, b, rows, n, i - 1);
        let m = i - 1;
        lemma_earlier_entry_is_listed(a, b, rows, m);
        lemma_earlier_entry_is_listed(b, a, rows, m);
    }
}

/// Where `x` and `y` agree before `m`, `x[m]` cannot rank before `y[m]`:
/// `y` would then have to list `x[m]`, which only fits before position `m`.
proof fn lemma_earlier_entry_is_listed(
    x: Seq<(u64, u64)>,
    y: Seq<(u64, u64)>,
    rows: Seq<UserDuration>,
    m: int,
)
    requires
        strictly_ranked(x),
        strictly_ranked(y),
        all_from(x, rows),
        none_skipped(y, rows),
        0 <= m < x.len(),
        m < y.len(),
        forall|j: int| 0 <= j < m ==> x[j] == y[j],
    ensures
        !ranks_before(x[m], y[m]),
{
    if ranks_before(x[m], y[m]) {
        let k = choose|k: int| 0 <= k < rows.len() && x[m] == entry_of(rows[k]);
        assert(x[m] == entry_of(rows[k]));
        if m < y.len() - 1 {
            assert(ranks_before(y[m], y.last()));
        }
        assert(ranks_before(entry_of(rows[k]), y.last()));
        assert(y.contains(entry_of(rows[k])));
        let p = choose|p: int| 0 <= p < y.len() && y[p] == x[m];
        if p >= m {
            if p > m {
                assert(ranks_before(y[m], y[p]));
            }
        } else {
            assert(x[p] == y[p]);
            assert(ranks_before(x[p], x[m]));
        }
    }
}

/// The leaderboard is determined by the rows alone: any two lists that
/// meet its contract for the same rows and size are equal, whatever the
/// ties between totals.
pub proof fn lemma_top_is_determined(
    a: Seq<(u64, u64)>,
    b: Seq<(u64, u64)>,
    rows: Seq<UserDuration>,
    n: nat,
)
    requires
        is_top(a, rows, n),
        is_top(b, rows, n),
    ensures
        a == b,
{
    if a.len() <= b.len() {
        lemma_tops_agree_up_to(a, b, rows, n, a.len() as int);
        lemma_longer_top_is_equal(a, b, rows, n);
    } else {
        lemma_tops_agree_up_to(a, b, rows, n, b.len() as int);
        lemma_longer_top_is_equal(b, a, rows, n);
    }
}

/// Where the shorter `a` is a prefix of `b`, both leaderboards of the same
/// rows and size, the two are equal.
proof fn lemma_longer_top_is_equal(
    a: Seq<(u64, u64)>,
    b: Seq<(u64, u64)>,
    rows: Seq<UserDuration>,
    n: nat,
)
    requires
        is_top(a, rows, n),
        is_top(b, rows, n),
        a.len() <= b.len(),
        forall|j: int| 0 <= j < a.len() ==> a[j] == b[j],
    ensures
        a == b,
{
    if a.len() < b.len() {
        let m = a.len() as int;
        let k = choose|k: int| 0 <= k < rows.len() && b[m] == entry_of(rows[k]);
        assert(b[m] == entry_of(rows[k]));
        assert(a.contains(entry_of(rows[k])));
        let p = choose|p: int| 0 <= p < a.len() && a[p] == b[m];
        assert(a[p] == b[p]);
        assert(ranks_before(b[p], b[m]));
    }
    assert(a =~= b);
}

} // verus!
