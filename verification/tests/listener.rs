use steam_activity_sniper::db::{Database, Hours};
use steam_activity_sniper::listener::{
    callback_reply, ok_reply, route, user_key_from_url, CallbackPayload, HttpMethod, RawGame,
    Route,
};

#[test]
fn extracts_numeric_profile() {
    assert_eq!(
        user_key_from_url("https://steamcommunity.com/profiles/76561198077713381/"),
        Some("76561198077713381".to_string())
    );
}

#[test]
fn extracts_custom_url() {
    assert_eq!(
        user_key_from_url("https://steamcommunity.com/id/gaben/"),
        Some("gaben".to_string())
    );
}

#[test]
fn ignores_query_and_fragment() {
    assert_eq!(
        user_key_from_url("https://steamcommunity.com/id/name?tab=games#top"),
        Some("name".to_string())
    );
}

#[test]
fn rejects_non_profile_pages() {
    assert_eq!(user_key_from_url("https://steamcommunity.com/market/"), None);
    assert_eq!(user_key_from_url("https://google.com/profiles/x/"), None);
}

#[test]
fn key_without_trailing_slash_runs_to_the_end() {
    assert_eq!(
        user_key_from_url("https://steamcommunity.com/profiles/123"),
        Some("123".to_string())
    );
    assert_eq!(
        user_key_from_url("http://steamcommunity.com/id/a#b"),
        Some("a".to_string())
    );
}

#[test]
fn empty_key_is_rejected() {
    assert_eq!(user_key_from_url("https://steamcommunity.com/id/"), None);
    assert_eq!(user_key_from_url("https://steamcommunity.com/profiles//games"), None);
    assert_eq!(user_key_from_url("https://steamcommunity.com/id/?x"), None);
    assert_eq!(user_key_from_url(""), None);
}

#[test]
fn only_the_first_host_counts() {
    // the segment after the first occurrence of the host decides
    assert_eq!(
        user_key_from_url("https://steamcommunity.com/market/?r=steamcommunity.com/id/x"),
        None
    );
    assert_eq!(
        user_key_from_url("https://steamcommunity.com/id/ünïcode/"),
        Some("ünïcode".to_string())
    );
}

fn answer(r: Route) -> (u16, &'static str) {
    match r {
        Route::Answer(a) => (a.status, a.body),
        Route::Hello => (0, "hello"),
        Route::Callback => (0, "callback"),
    }
}

#[test]
fn routes_requests() {
    assert_eq!(answer(route(HttpMethod::Options, "/anything")), (200, "{}"));
    assert_eq!(
        answer(route(HttpMethod::Get, "/status")),
        (200, r#"{"state":"running"}"#)
    );
    assert_eq!(
        answer(route(HttpMethod::Get, "/hello")),
        (404, r#"{"error":"not found"}"#)
    );
    assert_eq!(answer(route(HttpMethod::Post, "/hello")), (0, "hello"));
    assert_eq!(answer(route(HttpMethod::Post, "/callback")), (0, "callback"));
    assert_eq!(
        answer(route(HttpMethod::Post, "/status")),
        (404, r#"{"error":"not found"}"#)
    );
    assert_eq!(
        answer(route(HttpMethod::Other, "/status")),
        (405, r#"{"error":"method not allowed"}"#)
    );
}

#[test]
fn replies_to_callbacks() {
    let ok = callback_reply(true);
    assert_eq!((ok.status, ok.body), (200, r#"{"ok":true}"#));
    let bad = callback_reply(false);
    assert_eq!((bad.status, bad.body), (400, r#"{"error":"bad payload"}"#));
    let hello = ok_reply();
    assert_eq!((hello.status, hello.body), (200, r#"{"ok":true}"#));
}

fn hours(v: f64) -> Hours {
    Hours::from_bits(v.to_bits())
}

fn payload(url: &str, disabled: bool) -> CallbackPayload {
    CallbackPayload {
        page: "profile".to_string(),
        url: url.to_string(),
        time: 1_000_000,
        manual: false,
        disabled,
        persona: Some("Gabe".to_string()),
        two_weeks_total: Some(hours(3.5)),
        games: vec![
            RawGame {
                appid: Some(570),
                name: Some("Dota 2".to_string()),
                hours_2weeks: Some(hours(3.5)),
                hours_record: Some(hours(1200.0)),
            },
            RawGame {
                appid: None,
                name: None,
                hours_2weeks: None,
                hours_record: Some(hours(1.0)),
            },
        ],
    }
}

#[test]
fn payload_is_recorded_under_the_url_key() {
    let mut db = Database::new();
    assert!(db.apply_payload(&payload("https://steamcommunity.com/id/gaben/", false)));
    let user = db.users.get("gaben").expect("user recorded");
    assert_eq!(user.key, "gaben");
    assert_eq!(user.persona.as_deref(), Some("Gabe"));
    assert_eq!(user.last_seen, 1_000_000);
    // the nameless game without appid has an empty key and is skipped
    assert_eq!(user.games.len(), 1);
    let game = user.games.get("570").expect("game recorded");
    assert_eq!(game.name, "Dota 2");
    assert_eq!(game.history.len(), 1);
    assert_eq!(f64::from_bits(game.hours_record.bits), 1200.0);
}

#[test]
fn disabled_or_foreign_payloads_change_nothing() {
    let mut db = Database::new();
    assert!(!db.apply_payload(&payload("https://steamcommunity.com/id/gaben/", true)));
    assert!(!db.apply_payload(&payload("https://example.com/id/gaben/", false)));
    assert_eq!(db.users.len(), 0);
}
