use steam_activity_sniper::db::{
    Database, Game, GameData, Hours, TwoWeekPoint, User, DEDUP_WINDOW_MS, MAX_HISTORY,
};
use steam_activity_sniper::keyed_map::KeyedMap;

fn hours(v: f64) -> Hours {
    Hours::from_bits(v.to_bits())
}

fn report(appid: Option<u32>, name: &str, two_weeks: Option<f64>, record: Option<f64>) -> GameData {
    GameData {
        appid,
        name: name.to_string(),
        hours_2weeks: two_weeks.map(hours),
        hours_record: record.map(hours),
    }
}

fn snapshot(db: &mut Database, games: &[GameData], total: Option<f64>, ts: i64) {
    db.apply_callback(
        "gaben",
        "https://steamcommunity.com/id/gaben/",
        Some("Gabe"),
        games,
        total.map(hours),
        ts,
    );
}

#[test]
fn game_key_is_appid_or_name() {
    let g = Game {
        appid: Some(440),
        name: "Team Fortress 2".to_string(),
        hours_record: Hours::zero(),
        hours_2weeks: None,
        history: Vec::new(),
    };
    assert_eq!(g.key(), "440");
    let g = Game { appid: None, ..g };
    assert_eq!(g.key(), "Team Fortress 2");
    let g = Game { appid: Some(0), ..g };
    assert_eq!(g.key(), "0");
    let g = Game { appid: Some(u32::MAX), ..g };
    assert_eq!(g.key(), "4294967295");
}

#[test]
fn hours_compare_as_doubles() {
    assert_eq!(hours(-0.0), hours(0.0));
    assert_eq!(hours(-0.0).bits, (-0.0f64).to_bits());
    assert_eq!(Hours::zero().bits, 0);
    assert_ne!(hours(1.0), hours(2.0));
    assert_ne!(hours(f64::NAN), hours(f64::NAN));
    assert!(hours(1.5).same(&hours(1.5)));
}

#[test]
fn merge_keeps_the_stored_hours() {
    let mut db = Database::new();
    snapshot(&mut db, &[report(Some(1), "g", Some(-0.0), Some(-0.0))], Some(-0.0), 0);
    snapshot(&mut db, &[report(Some(1), "g", Some(0.0), Some(0.0))], Some(0.0), 10);
    let u = db.users.get("gaben").unwrap();
    let g = u.games.get("1").unwrap();
    assert_eq!(g.history.len(), 1);
    assert_eq!(g.history[0].ts, 10);
    assert_eq!(g.history[0].hours_record.bits, (-0.0f64).to_bits());
    assert_eq!(g.hours_record.bits, 0);
    assert_eq!(u.two_weeks_history.len(), 1);
    assert_eq!(u.two_weeks_history[0].hours.bits, (-0.0f64).to_bits());
    assert_eq!(u.two_weeks_total.unwrap().bits, 0);
}

#[test]
fn nan_hours_never_merge() {
    let mut db = Database::new();
    snapshot(&mut db, &[report(Some(1), "g", None, Some(f64::NAN))], None, 0);
    snapshot(&mut db, &[report(Some(1), "g", None, Some(f64::NAN))], None, 1);
    assert_eq!(db.users.get("gaben").unwrap().games.get("1").unwrap().history.len(), 2);
}

#[test]
fn overlong_two_week_history_is_capped_after_a_merge() {
    let long: Vec<TwoWeekPoint> =
        (0..(MAX_HISTORY as i64 + 1)).map(|i| TwoWeekPoint { ts: i, hours: hours(1.0) }).collect();
    let mut db = Database::new();
    db.users.insert(
        "gaben".to_string(),
        User {
            key: "gaben".to_string(),
            url: "u".to_string(),
            persona: None,
            last_seen: 0,
            two_weeks_total: Some(hours(1.0)),
            two_weeks_history: long,
            games: KeyedMap::new(),
        },
    );
    snapshot(&mut db, &[], Some(1.0), MAX_HISTORY as i64 + 2);
    let u = db.users.get("gaben").unwrap();
    assert_eq!(u.two_weeks_history.len(), MAX_HISTORY);
    assert_eq!(u.two_weeks_history[0].ts, 1);
    assert_eq!(u.two_weeks_history[MAX_HISTORY - 1].ts, MAX_HISTORY as i64 + 2);
}

#[test]
fn first_snapshot_creates_user_and_games() {
    let mut db = Database::new();
    snapshot(&mut db, &[report(Some(570), "Dota 2", Some(2.0), Some(100.0))], Some(2.0), 5_000);
    let u = db.users.get("gaben").unwrap();
    assert_eq!(u.url, "https://steamcommunity.com/id/gaben/");
    assert_eq!(u.last_seen, 5_000);
    assert_eq!(u.two_weeks_total, Some(hours(2.0)));
    assert_eq!(u.two_weeks_history.len(), 1);
    assert_eq!(u.two_weeks_history[0].ts, 5_000);
    let g = u.games.get("570").unwrap();
    assert_eq!(g.appid, Some(570));
    assert_eq!(g.hours_2weeks, Some(hours(2.0)));
    assert_eq!(g.history.len(), 1);
    assert_eq!(g.history[0].ts, 5_000);
}

#[test]
fn identical_snapshot_within_window_is_merged() {
    let mut db = Database::new();
    let games = [report(Some(570), "Dota 2", Some(2.0), Some(100.0))];
    snapshot(&mut db, &games, Some(2.0), 1_000);
    snapshot(&mut db, &games, Some(2.0), 1_000 + DEDUP_WINDOW_MS - 1);
    let u = db.users.get("gaben").unwrap();
    let g = u.games.get("570").unwrap();
    assert_eq!(g.history.len(), 1);
    assert_eq!(g.history[0].ts, 1_000 + DEDUP_WINDOW_MS - 1);
    assert_eq!(u.two_weeks_history.len(), 1);
    assert_eq!(u.two_weeks_history[0].ts, 1_000 + DEDUP_WINDOW_MS - 1);
    assert_eq!(u.last_seen, 1_000 + DEDUP_WINDOW_MS - 1);
}

#[test]
fn five_minute_refresh_charts_a_new_point() {
    let mut db = Database::new();
    let games = [report(Some(570), "Dota 2", Some(2.0), Some(100.0))];
    snapshot(&mut db, &games, Some(2.0), 0);
    snapshot(&mut db, &games, Some(2.0), 5 * 60 * 1000);
    let u = db.users.get("gaben").unwrap();
    assert_eq!(u.games.get("570").unwrap().history.len(), 2);
    assert_eq!(u.two_weeks_history.len(), 2);
    // exactly at the window's end a new point is charted too
    snapshot(&mut db, &games, Some(2.0), 5 * 60 * 1000 + DEDUP_WINDOW_MS);
    assert_eq!(db.users.get("gaben").unwrap().games.get("570").unwrap().history.len(), 3);
}

#[test]
fn changed_hours_chart_a_new_point() {
    let mut db = Database::new();
    snapshot(&mut db, &[report(Some(570), "Dota 2", Some(2.0), Some(100.0))], None, 0);
    snapshot(&mut db, &[report(Some(570), "", None, Some(101.0))], None, 10);
    let u = db.users.get("gaben").unwrap();
    let g = u.games.get("570").unwrap();
    assert_eq!(g.history.len(), 2);
    // missing name and two-week hours keep the stored ones
    assert_eq!(g.name, "Dota 2");
    assert_eq!(g.hours_2weeks, Some(hours(2.0)));
    assert_eq!(g.history[1].hours_2weeks, Some(hours(2.0)));
    assert_eq!(g.history[1].hours_record, hours(101.0));
    assert_eq!(u.two_weeks_total, None);
    assert_eq!(u.two_weeks_history.len(), 0);
}

#[test]
fn same_snapshot_twice_changes_nothing() {
    let mut once = Database::new();
    let mut twice = Database::new();
    let games = [
        report(Some(570), "Dota 2", Some(2.0), Some(100.0)),
        report(None, "Some Mod", None, Some(3.0)),
    ];
    snapshot(&mut once, &games, Some(2.0), 7);
    snapshot(&mut twice, &games, Some(2.0), 7);
    snapshot(&mut twice, &games, Some(2.0), 7);
    let a = once.users.get("gaben").unwrap();
    let b = twice.users.get("gaben").unwrap();
    assert_eq!(format!("{:?}", a), format!("{:?}", b));
}

#[test]
fn last_seen_never_moves_back() {
    let mut db = Database::new();
    snapshot(&mut db, &[], None, 100);
    snapshot(&mut db, &[], None, 50);
    assert_eq!(db.users.get("gaben").unwrap().last_seen, 100);
}

#[test]
fn empty_persona_keeps_the_old_one() {
    let mut db = Database::new();
    snapshot(&mut db, &[], None, 1);
    db.apply_callback("gaben", "u2", Some(""), &[], None, 2);
    let u = db.users.get("gaben").unwrap();
    assert_eq!(u.persona.as_deref(), Some("Gabe"));
    assert_eq!(u.url, "u2");
    db.apply_callback("other", "u3", None, &[], None, 3);
    assert_eq!(db.users.get("other").unwrap().persona, None);
    assert_eq!(db.users.len(), 2);
}

#[test]
fn histories_are_capped() {
    let mut db = Database::new();
    for i in 0..(MAX_HISTORY as i64 + 5) {
        let h = i as f64;
        snapshot(&mut db, &[report(Some(1), "g", None, Some(h))], Some(h), i);
    }
    let u = db.users.get("gaben").unwrap();
    let g = u.games.get("1").unwrap();
    assert_eq!(g.history.len(), MAX_HISTORY);
    assert_eq!(g.history[0].ts, 5);
    assert_eq!(g.history[MAX_HISTORY - 1].ts, MAX_HISTORY as i64 + 4);
    assert_eq!(u.two_weeks_history.len(), MAX_HISTORY);
    assert_eq!(u.two_weeks_history[0].ts, 5);
}

#[test]
fn users_are_kept_in_key_order() {
    let mut db = Database::new();
    for key in ["b", "a", "c", "ab"] {
        db.apply_callback(key, "u", None, &[], None, 1);
    }
    let keys: Vec<String> = (0..db.users.len()).map(|i| db.users.entry_at(i).0.clone()).collect();
    assert_eq!(keys, vec!["a", "ab", "b", "c"]);
    assert!(db.users.contains_key("ab"));
    assert!(db.users.remove("ab").is_some());
    assert!(!db.users.contains_key("ab"));
    assert!(db.users.remove("ab").is_none());
}

#[test]
fn snapshot_leaves_other_users_alone() {
    let mut db = Database::new();
    db.apply_callback("other", "u", Some("O"), &[report(Some(1), "g", None, Some(1.0))], None, 1);
    let before = format!("{:?}", db.users.get("other").unwrap());
    snapshot(&mut db, &[report(Some(1), "g", None, Some(2.0))], Some(1.0), 2);
    assert_eq!(format!("{:?}", db.users.get("other").unwrap()), before);
    assert_eq!(db.users.len(), 2);
}

#[test]
fn newest_point_is_the_snapshot() {
    let mut db = Database::new();
    snapshot(&mut db, &[report(Some(10), "A", Some(1.0), Some(5.0))], Some(1.0), 100);
    snapshot(&mut db, &[report(Some(10), "A", None, Some(6.0)), report(None, "B", None, None)], Some(4.0), 200);
    let u = db.users.get("gaben").unwrap();
    let a = u.games.get("10").unwrap();
    let last = a.history[a.history.len() - 1];
    assert_eq!((last.ts, last.hours_2weeks, last.hours_record), (200, Some(hours(1.0)), hours(6.0)));
    let b = u.games.get("B").unwrap();
    assert_eq!(b.history.len(), 1);
    assert_eq!((b.history[0].ts, b.history[0].hours_2weeks, b.history[0].hours_record), (200, None, Hours::zero()));
    let tw = u.two_weeks_history[u.two_weeks_history.len() - 1];
    assert_eq!((tw.ts, tw.hours), (200, hours(4.0)));
    assert_eq!(u.two_weeks_total, Some(hours(4.0)));
}
