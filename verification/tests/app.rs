use steam_activity_sniper::app::{
    fmt_ts, game_points_since, most_recent_user, points_by_time, timestamp_seconds,
    two_week_points_since, user_choices, Timeframe, ViewState, MAX_LOG_LINES,
};
use steam_activity_sniper::db::{Database, GameData, GamePoint, Hours, TwoWeekPoint};
use steam_activity_sniper::listener::{CallbackPayload, Event, RawGame};

#[test]
fn timeframe_labels_and_windows() {
    let all = Timeframe::all();
    let labels: Vec<&str> = all.iter().map(|t| t.label()).collect();
    assert_eq!(labels, vec!["24 hours", "7 days", "30 days", "90 days", "All time"]);
    let windows: Vec<Option<i64>> = all.iter().map(|t| t.window_secs()).collect();
    assert_eq!(
        windows,
        vec![Some(86_400), Some(604_800), Some(2_592_000), Some(7_776_000), None]
    );
    assert_eq!(Timeframe::Hours24.cutoff_ms(100_000), Some((100_000 - 86_400) * 1000));
    assert_eq!(Timeframe::All.cutoff_ms(100_000), None);
}

#[test]
fn timestamps_are_shown_in_seconds() {
    assert_eq!(timestamp_seconds(0), None);
    assert_eq!(timestamp_seconds(-5), None);
    assert_eq!(timestamp_seconds(1_700_000_000), Some(1_700_000_000));
    assert_eq!(timestamp_seconds(99_999_999_999), Some(99_999_999_999));
    assert_eq!(timestamp_seconds(100_000_000_000), Some(100_000_000));
    assert_eq!(timestamp_seconds(1_700_000_000_123), Some(1_700_000_000));
    assert_eq!(fmt_ts(0, None), "—");
    assert_eq!(fmt_ts(-1, Some("x".to_string())), "—");
    assert_eq!(fmt_ts(42, None), "42");
    assert_eq!(fmt_ts(42, Some("1970-01-01 00:00".to_string())), "1970-01-01 00:00");
}

fn seen(db: &mut Database, key: &str, persona: Option<&str>, ts: i64) {
    db.apply_callback(key, "https://steamcommunity.com/id/x/", persona, &[], None, ts);
}

#[test]
fn most_recent_user_wins_and_ties_go_to_the_last_key() {
    let mut db = Database::new();
    assert_eq!(most_recent_user(&db), None);
    seen(&mut db, "b", None, 10);
    seen(&mut db, "a", None, 30);
    seen(&mut db, "c", None, 30);
    seen(&mut db, "d", None, 20);
    assert_eq!(most_recent_user(&db), Some("c".to_string()));
    let state = ViewState::new(&db);
    assert_eq!(state.selected_user, Some("c".to_string()));
    assert_eq!(state.selected_game, None);
    assert!(state.timeframe == Timeframe::All);
    assert!(state.recenter);
    assert!(!state.connected);
}

#[test]
fn user_menu_is_ordered_by_recency_then_key() {
    let mut db = Database::new();
    seen(&mut db, "b", Some("Bee"), 10);
    seen(&mut db, "a", Some(""), 30);
    seen(&mut db, "c", None, 30);
    seen(&mut db, "d", Some("Dee"), 20);
    let menu = user_choices(&db);
    let expected: Vec<(String, String)> = vec![
        ("a".to_string(), "a".to_string()),
        ("c".to_string(), "c".to_string()),
        ("d".to_string(), "Dee (d)".to_string()),
        ("b".to_string(), "Bee (b)".to_string()),
    ];
    assert_eq!(menu, expected);
}

fn payload(disabled: bool, manual: bool, url: &str) -> CallbackPayload {
    CallbackPayload {
        page: "https://steamcommunity.com/id/gaben/".to_string(),
        url: url.to_string(),
        time: 1,
        manual,
        disabled,
        persona: Some("Gabe".to_string()),
        two_weeks_total: None,
        games: vec![
            RawGame { appid: Some(1), name: None, hours_2weeks: None, hours_record: None },
            RawGame { appid: Some(2), name: None, hours_2weeks: None, hours_record: None },
        ],
    }
}

#[test]
fn events_update_the_view_state() {
    let db = Database::new();
    let mut state = ViewState::new(&db);
    state.handle_event("12:00:00", Event::Log("hello".to_string()));
    assert_eq!(state.log, vec!["[12:00:00] hello".to_string()]);
    assert!(!state.connected);
    state.handle_event("12:00:01", Event::Hello("https://steamcommunity.com/id/gaben/".to_string()));
    assert!(state.connected);
    assert_eq!(state.selected_user, Some("gaben".to_string()));
    assert_eq!(state.log[1], "[12:00:01] Browser tab active: gaben");
    state.handle_event("12:00:02", Event::Hello("https://example.com/".to_string()));
    assert_eq!(state.log.len(), 2);
    assert_eq!(state.selected_user, Some("gaben".to_string()));
    state.handle_event(
        "12:00:03",
        Event::Callback(payload(false, true, "https://steamcommunity.com/id/gaben/")),
    );
    assert_eq!(state.log[2], "[12:00:03] Snapshot from gaben (Gabe): 2 game(s) (manual)");
    state.handle_event("12:00:04", Event::Callback(payload(true, false, "x")));
    assert_eq!(
        state.log[3],
        "[12:00:04] Monitoring toggled off on https://steamcommunity.com/id/gaben/"
    );
    state.handle_event("12:00:05", Event::Callback(payload(false, false, "https://example.com/")));
    assert_eq!(state.log[4], "[12:00:05] Snapshot from non-profile page: https://example.com/");
}

#[test]
fn log_keeps_the_newest_lines() {
    let db = Database::new();
    let mut state = ViewState::new(&db);
    for i in 0..(MAX_LOG_LINES + 10) {
        state.logf("t", &format!("line {i}"));
    }
    assert_eq!(state.log.len(), MAX_LOG_LINES);
    assert_eq!(state.log[0], "[t] line 10");
    assert_eq!(state.log[MAX_LOG_LINES - 1], format!("[t] line {}", MAX_LOG_LINES + 9));
}

#[test]
fn sync_fixes_the_selection_and_recenters_on_change() {
    let mut db = Database::new();
    let game = GameData {
        appid: Some(570),
        name: "Dota 2".to_string(),
        hours_2weeks: None,
        hours_record: Some(Hours::from_bits(1.0f64.to_bits())),
    };
    db.apply_callback("a", "u", None, &[game], None, 5);
    seen(&mut db, "b", None, 9);
    let mut state = ViewState::new(&Database::new());
    assert_eq!(state.selected_user, None);
    state.recenter = false;
    let users = state.sync(&db);
    assert_eq!(users.len(), 2);
    // nothing was selected: the first listed user is
    assert_eq!(state.selected_user, Some("b".to_string()));
    assert!(state.recenter);
    state.recenter = false;
    let _ = state.sync(&db);
    assert!(!state.recenter);
    // a game the user does not have is dropped
    state.selected_game = Some("570".to_string());
    let _ = state.sync(&db);
    assert_eq!(state.selected_game, None);
    assert!(!state.recenter);
    state.selected_user = Some("a".to_string());
    state.selected_game = Some("570".to_string());
    let _ = state.sync(&db);
    assert_eq!(state.selected_game, Some("570".to_string()));
    assert!(state.recenter);
    // an unknown user is dropped, and with it the game
    state.selected_user = Some("zzz".to_string());
    let _ = state.sync(&db);
    assert_eq!(state.selected_user, None);
    assert_eq!(state.selected_game, None);
}

#[test]
fn graph_points_are_kept_and_grouped_by_time() {
    let h = |v: f64| Hours::from_bits(v.to_bits());
    let mut db = Database::new();
    let report = |appid: u32, rec: f64| GameData {
        appid: Some(appid),
        name: "g".to_string(),
        hours_2weeks: None,
        hours_record: Some(h(rec)),
    };
    db.apply_callback("u", "url", None, &[report(2, 1.0), report(1, 5.0)], None, 100);
    db.apply_callback("u", "url", None, &[report(1, 6.0)], None, 200_000);
    db.apply_callback("u", "url", None, &[report(2, 2.0), report(1, 7.0)], None, 400_000);
    let user = db.users.get("u").unwrap();
    let groups = points_by_time(user, None);
    let shape: Vec<(i64, Vec<u64>)> = groups
        .iter()
        .map(|(ts, ps)| (*ts, ps.iter().map(|p: &GamePoint| p.hours_record.bits).collect()))
        .collect();
    // games in key order ("1" before "2"), each history in order
    assert_eq!(
        shape,
        vec![
            (100, vec![h(5.0).bits, h(1.0).bits]),
            (200_000, vec![h(6.0).bits]),
            (400_000, vec![h(7.0).bits, h(2.0).bits]),
        ]
    );
    let later = points_by_time(user, Some(200_000));
    assert_eq!(later.iter().map(|(ts, _)| *ts).collect::<Vec<_>>(), vec![200_000, 400_000]);
    let g1 = user.games.get("1").unwrap();
    assert_eq!(game_points_since(&g1.history, Some(200_001)).len(), 1);
    assert_eq!(game_points_since(&g1.history, None).len(), 3);
    let tw = vec![TwoWeekPoint { ts: 1, hours: h(1.0) }, TwoWeekPoint { ts: 5, hours: h(2.0) }];
    assert_eq!(two_week_points_since(&tw, Some(2)).len(), 1);
    assert_eq!(two_week_points_since(&tw, Some(2))[0].ts, 5);
}
