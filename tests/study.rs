use study_tracker::classifier::{classify, handle_voice_update, Transition};
use study_tracker::db::{
    add_study_channel, get_leaderboard, get_total_study_duration, is_study_channel,
    log_end_time, log_start_time, remove_study_channel, startup, top_n, StudyDb, StudyError,
    StudySession, UserDuration,
};
use study_tracker::utils::get_hms;

const C: u64 = 42;
const C2: u64 = 43;
const OTHER: u64 = 7;
const U: u64 = 1001;

fn open_sessions(db: &StudyDb) -> usize {
    db.sessions().iter().filter(|s| s.end_time.is_none()).count()
}

#[test]
fn hms_of_500() {
    assert_eq!(get_hms(500), (0, 8, 20));
}

#[test]
fn hms_values() {
    assert_eq!(get_hms(0), (0, 0, 0));
    assert_eq!(get_hms(59), (0, 0, 59));
    assert_eq!(get_hms(60), (0, 1, 0));
    assert_eq!(get_hms(3661), (1, 1, 1));
    assert_eq!(get_hms(90061), (25, 1, 1));
    assert_eq!(get_hms(u64::MAX), (u64::MAX / 3600, (u64::MAX / 60) % 60, u64::MAX % 60));
}

#[test]
fn channel_registry() {
    let mut db = StudyDb::new();
    assert!(!is_study_channel(&db, C));
    add_study_channel(&mut db, C);
    add_study_channel(&mut db, C);
    add_study_channel(&mut db, C2);
    assert!(is_study_channel(&db, C));
    assert!(is_study_channel(&db, C2));
    assert_eq!(db.channels(), vec![C, C, C2]);
    remove_study_channel(&mut db, C);
    assert!(!is_study_channel(&db, C));
    assert!(is_study_channel(&db, C2));
    assert_eq!(db.channels(), vec![C2]);
    remove_study_channel(&mut db, OTHER);
    assert_eq!(db.channels(), vec![C2]);
}

#[test]
fn classify_all_cases() {
    assert_eq!(classify(false, true), Transition::Enter);
    assert_eq!(classify(true, false), Transition::Exit);
    assert_eq!(classify(true, true), Transition::NoOp);
    assert_eq!(classify(false, false), Transition::NoOp);
}

#[test]
fn enter_then_leave_scenario() {
    let mut db = StudyDb::new();
    add_study_channel(&mut db, C);
    assert_eq!(handle_voice_update(&mut db, U, Some(OTHER), Some(C), 1000), Ok(Transition::Enter));
    assert_eq!(
        db.sessions(),
        vec![StudySession { user_id: U, start_time: 1000, end_time: None }]
    );
    assert_eq!(db.durations(), vec![UserDuration { user_id: U, total_duration: 0 }]);
    assert_eq!(get_total_study_duration(&db, U), 0);
    assert_eq!(handle_voice_update(&mut db, U, Some(C), Some(OTHER), 1500), Ok(Transition::Exit));
    assert_eq!(
        db.sessions(),
        vec![StudySession { user_id: U, start_time: 1000, end_time: Some(1500) }]
    );
    assert_eq!(get_total_study_duration(&db, U), 500);
    assert_eq!(get_hms(get_total_study_duration(&db, U)), (0, 8, 20));
}

#[test]
fn connect_and_disconnect() {
    let mut db = StudyDb::new();
    add_study_channel(&mut db, C);
    assert_eq!(handle_voice_update(&mut db, U, None, Some(C), 10), Ok(Transition::Enter));
    assert_eq!(handle_voice_update(&mut db, U, Some(C), None, 70), Ok(Transition::Exit));
    assert_eq!(get_total_study_duration(&db, U), 60);
    assert_eq!(handle_voice_update(&mut db, U, None, Some(OTHER), 80), Ok(Transition::NoOp));
    assert_eq!(db.sessions().len(), 1);
}

#[test]
fn restart_mid_session_scenario() {
    let mut db = StudyDb::new();
    add_study_channel(&mut db, C);
    handle_voice_update(&mut db, U, None, Some(C), 100).unwrap();
    handle_voice_update(&mut db, U, Some(C), None, 400).unwrap();
    handle_voice_update(&mut db, U, None, Some(C), 1000).unwrap();
    assert_eq!(open_sessions(&db), 1);
    startup(&mut db);
    assert_eq!(open_sessions(&db), 0);
    assert_eq!(
        db.sessions(),
        vec![StudySession { user_id: U, start_time: 100, end_time: Some(400) }]
    );
    assert_eq!(get_total_study_duration(&db, U), 300);
    // the stray exit of the discarded session is dropped
    assert_eq!(
        handle_voice_update(&mut db, U, Some(C), None, 2000),
        Err(StudyError::NoOpenSession)
    );
    assert_eq!(get_total_study_duration(&db, U), 300);
}

#[test]
fn move_between_study_channels_scenario() {
    let mut db = StudyDb::new();
    add_study_channel(&mut db, C);
    add_study_channel(&mut db, C2);
    handle_voice_update(&mut db, U, None, Some(C), 1000).unwrap();
    assert_eq!(handle_voice_update(&mut db, U, Some(C), Some(C2), 1200), Ok(Transition::NoOp));
    assert_eq!(
        db.sessions(),
        vec![StudySession { user_id: U, start_time: 1000, end_time: None }]
    );
    assert_eq!(get_total_study_duration(&db, U), 0);
    handle_voice_update(&mut db, U, Some(C2), None, 1300).unwrap();
    assert_eq!(get_total_study_duration(&db, U), 300);
}

#[test]
fn second_enter_keeps_the_open_session() {
    let mut db = StudyDb::new();
    add_study_channel(&mut db, C);
    add_study_channel(&mut db, C2);
    handle_voice_update(&mut db, U, None, Some(C), 1000).unwrap();
    // C stops counting while U sits in it, then U moves to C2
    remove_study_channel(&mut db, C);
    assert_eq!(handle_voice_update(&mut db, U, Some(C), Some(C2), 1100), Ok(Transition::Enter));
    assert_eq!(open_sessions(&db), 1);
    assert_eq!(db.sessions()[0].start_time, 1000);
}

#[test]
fn recovery_clears_every_open_session() {
    let mut db = StudyDb::new();
    for u in 0..5u64 {
        log_start_time(&mut db, u, 10 * u);
    }
    log_end_time(&mut db, 2, 100).unwrap();
    startup(&mut db);
    assert_eq!(open_sessions(&db), 0);
    assert_eq!(db.sessions(), vec![StudySession { user_id: 2, start_time: 20, end_time: Some(100) }]);
    startup(&mut db);
    assert_eq!(db.sessions().len(), 1);
}

#[test]
fn close_then_recover_counts_once() {
    let mut db = StudyDb::new();
    log_start_time(&mut db, U, 50);
    assert_eq!(log_end_time(&mut db, U, 80), Ok(30));
    startup(&mut db);
    assert_eq!(get_total_study_duration(&db, U), 30);
    startup(&mut db);
    assert_eq!(get_total_study_duration(&db, U), 30);
    assert_eq!(log_end_time(&mut db, U, 90), Err(StudyError::NoOpenSession));
    assert_eq!(get_total_study_duration(&db, U), 30);
}

#[test]
fn totals_never_decrease() {
    let mut db = StudyDb::new();
    add_study_channel(&mut db, C);
    let mut last = 0;
    let steps: Vec<(Option<u64>, Option<u64>, u64)> = vec![
        (None, Some(C), 0),
        (Some(C), None, 10),
        (None, Some(C), 20),
        (Some(C), Some(OTHER), 45),
        (Some(OTHER), Some(C), 50),
        (Some(C), None, 40),
    ];
    for (from, to, t) in steps {
        let _ = handle_voice_update(&mut db, U, from, to, t);
        let now = get_total_study_duration(&db, U);
        assert!(now >= last);
        last = now;
    }
    assert_eq!(last, 35);
    startup(&mut db);
    assert_eq!(get_total_study_duration(&db, U), 35);
}

#[test]
fn close_errors() {
    let mut db = StudyDb::new();
    assert_eq!(log_end_time(&mut db, U, 10), Err(StudyError::NoOpenSession));
    log_start_time(&mut db, U, 100);
    assert_eq!(log_end_time(&mut db, U, 99), Err(StudyError::EndBeforeStart));
    assert_eq!(open_sessions(&db), 1);
    assert_eq!(log_end_time(&mut db, U, u64::MAX), Ok(u64::MAX - 100));
    log_start_time(&mut db, U, 0);
    assert_eq!(log_end_time(&mut db, U, 101), Err(StudyError::TotalOverflow));
    assert_eq!(get_total_study_duration(&db, U), u64::MAX - 100);
    assert_eq!(open_sessions(&db), 1);
    assert_eq!(log_end_time(&mut db, U, 100), Ok(100));
    assert_eq!(get_total_study_duration(&db, U), u64::MAX);
}

#[test]
fn zero_length_session() {
    let mut db = StudyDb::new();
    log_start_time(&mut db, U, 7);
    assert_eq!(log_end_time(&mut db, U, 7), Ok(0));
    assert_eq!(get_total_study_duration(&db, U), 0);
}

#[test]
fn unknown_user_total_is_zero() {
    let db = StudyDb::new();
    assert_eq!(get_total_study_duration(&db, 99), 0);
    assert_eq!(get_leaderboard(&db), vec![]);
}

fn db_with_totals(totals: &[(u64, u64)]) -> StudyDb {
    let rows = totals
        .iter()
        .map(|&(user_id, total_duration)| UserDuration { user_id, total_duration })
        .collect();
    StudyDb::from_rows(vec![], vec![], rows).unwrap()
}

#[test]
fn leaderboard_order_and_ties() {
    let db = db_with_totals(&[(5, 100), (3, 300), (9, 100), (1, 100), (4, 0)]);
    assert_eq!(get_leaderboard(&db), vec![(3, 300), (1, 100), (5, 100), (9, 100), (4, 0)]);
    assert_eq!(top_n(&db, 2), vec![(3, 300), (1, 100)]);
    assert_eq!(top_n(&db, 0), vec![]);
    let again = db_with_totals(&[(9, 100), (4, 0), (1, 100), (3, 300), (5, 100)]);
    assert_eq!(get_leaderboard(&again), get_leaderboard(&db));
}

#[test]
fn leaderboard_keeps_ten() {
    let totals: Vec<(u64, u64)> = (0..15u64).map(|u| (u, u * 10)).collect();
    let db = db_with_totals(&totals);
    let board = get_leaderboard(&db);
    assert_eq!(board.len(), 10);
    assert_eq!(board[0], (14, 140));
    assert_eq!(board[9], (5, 50));
}

#[test]
fn from_rows_checks_invariant() {
    let dup = vec![
        UserDuration { user_id: 1, total_duration: 5 },
        UserDuration { user_id: 1, total_duration: 6 },
    ];
    assert!(StudyDb::from_rows(vec![], vec![], dup).is_none());
    let two_open = vec![
        StudySession { user_id: 1, start_time: 5, end_time: None },
        StudySession { user_id: 1, start_time: 6, end_time: None },
    ];
    assert!(StudyDb::from_rows(two_open, vec![], vec![]).is_none());
    let fine = vec![
        StudySession { user_id: 1, start_time: 5, end_time: Some(6) },
        StudySession { user_id: 1, start_time: 7, end_time: None },
        StudySession { user_id: 2, start_time: 7, end_time: None },
    ];
    let db = StudyDb::from_rows(fine.clone(), vec![C], vec![]).unwrap();
    assert_eq!(db.sessions(), fine);
    assert!(is_study_channel(&db, C));
}
