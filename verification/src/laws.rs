use vstd::prelude::*;

use crate::db::{
    apply_callback_spec, apply_games, apply_snapshot, capped, game_base, game_key,
    is_nan, merges_with, new_user, record_game_point, record_two_week_point,
    report_key, same_opt_value, same_value, two_week_merges_with, updated_game, within_window,
    opt_string_view, GameDataView, GamePoint, GameView, Hours, TwoWeekPoint, UserView,
    MAX_HISTORY,
};
use crate::app::{
    all_kept_points, callback_message, is_grouping, kept_points, kept_two_week, points_at,
};
use crate::db::Game;
use crate::listener::{url_user_key, CallbackPayload};
use crate::text::decimal;

verus! {

/// Whether the reports with a nonempty key name distinct games.
pub open spec fn distinct_reports(gs: Seq<GameDataView>) -> bool {
    forall|i: int, j: int|
        0 <= i < j < gs.len() && report_key(gs[i]).len() > 0 ==> report_key(#[trigger] gs[i])
            != report_key(#[trigger] gs[j])
}

proof fn lemma_distinct_drop_last(gs: Seq<GameDataView>)
    requires
        gs.len() > 0,
        distinct_reports(gs),
    ensures
        distinct_reports(gs.drop_last()),
{
    let d = gs.drop_last();
    assert forall|i: int, j: int|
        0 <= i < j < d.len() && report_key(d[i]).len() > 0 implies report_key(#[trigger] d[i])
        != report_key(#[trigger] d[j]) by {
        assert(d[i] == gs[i]);
        assert(d[j] == gs[j]);
    }
}

/// A game that no report of a snapshot names is left as it was.
pub proof fn lemma_apply_games_unreported(
    m: Map<Seq<char>, GameView>,
    gs: Seq<GameDataView>,
    ts: i64,
    k: Seq<char>,
)
    requires
        forall|j: int| 0 <= j < gs.len() ==> report_key(#[trigger] gs[j]).len() == 0 || report_key(gs[j]) != k,
    ensures
        apply_games(m, gs, ts).contains_key(k) == m.contains_key(k),
        m.contains_key(k) ==> apply_games(m, gs, ts)[k] == m[k],
    decreases gs.len(),
{
    if gs.len() > 0 {
        let d = gs.drop_last();
        assert forall|j: int| 0 <= j < d.len() implies report_key(#[trigger] d[j]).len() == 0 || report_key(d[j]) != k by {
            assert(d[j] == gs[j]);
        }
        lemma_apply_games_unreported(m, d, ts, k);
        assert(report_key(gs[gs.len() - 1]).len() == 0 || report_key(gs[gs.len() - 1]) != k);
    }
}

/// With distinct reports, the game that report `j` names ends up as that
/// report makes it from what was stored.
pub proof fn lemma_apply_games_reported(
    m: Map<Seq<char>, GameView>,
    gs: Seq<GameDataView>,
    ts: i64,
    j: int,
)
    requires
        distinct_reports(gs),
        0 <= j < gs.len(),
        report_key(gs[j]).len() > 0,
    ensures
        apply_games(m, gs, ts).contains_key(report_key(gs[j])),
        apply_games(m, gs, ts)[report_key(gs[j])] == updated_game(game_base(m, gs[j]), gs[j], ts),
    decreases gs.len(),
{
    let d = gs.drop_last();
    let k = report_key(gs[j]);
    let last = gs.len() - 1;
    lemma_distinct_drop_last(gs);
    if j == last {
        assert forall|i: int| 0 <= i < d.len() implies report_key(#[trigger] d[i]).len() == 0 || report_key(d[i]) != k by {
            assert(d[i] == gs[i]);
        }
        lemma_apply_games_unreported(m, d, ts, k);
        let prev = apply_games(m, d, ts);
        assert(game_base(prev, gs[j]) == game_base(m, gs[j]));
    } else {
        assert(d[j] == gs[j]);
        lemma_apply_games_reported(m, d, ts, j);
        assert(report_key(gs[j]) != report_key(gs[last]));
    }
}

proof fn lemma_capped<T>(s: Seq<T>)
    ensures
        capped(s).len() <= MAX_HISTORY,
        s.len() <= MAX_HISTORY ==> capped(s) == s,
        s.len() > 0 ==> capped(s).len() > 0 && capped(s).last() == s.last(),
        s.len() > MAX_HISTORY ==> capped(s).len() == MAX_HISTORY,
{
}

/// Whether a point shows the hours `tw` and `rec`: bit for bit, or equal as
/// doubles.
pub open spec fn shows_hours(p: GamePoint, tw: Option<Hours>, rec: Hours) -> bool {
    (p.hours_2weeks == tw && p.hours_record == rec) || (same_opt_value(p.hours_2weeks, tw)
        && same_value(p.hours_record, rec))
}

/// Whether `h` is no NaN.
pub open spec fn defined(h: Hours) -> bool {
    !is_nan(h)
}

/// Whether `h` is absent or no NaN.
pub open spec fn opt_defined(h: Option<Hours>) -> bool {
    match h {
        Some(x) => defined(x),
        None => true,
    }
}

proof fn lemma_record_game_point_last(h: Seq<GamePoint>, p: GamePoint)
    ensures
        record_game_point(h, p).len() > 0,
        record_game_point(h, p).last().ts == p.ts,
        shows_hours(record_game_point(h, p).last(), p.hours_2weeks, p.hours_record),
        h.len() <= MAX_HISTORY ==> record_game_point(h, p).len() <= MAX_HISTORY,
{
    lemma_capped(h.push(p));
}

proof fn lemma_record_two_week_point_last(h: Seq<TwoWeekPoint>, v: Hours, ts: i64)
    ensures
        record_two_week_point(h, v, ts).len() > 0,
        record_two_week_point(h, v, ts).last().ts == ts,
        record_two_week_point(h, v, ts).last().hours == v || same_value(
            record_two_week_point(h, v, ts).last().hours,
            v,
        ),
        record_two_week_point(h, v, ts).len() <= MAX_HISTORY,
{
    if two_week_merges_with(h, v, ts) {
        lemma_capped(h.update(h.len() - 1, TwoWeekPoint { ts, ..h.last() }));
    } else {
        lemma_capped(h.push(TwoWeekPoint { ts, hours: v }));
    }
}

/// A game history drops only its oldest point, and only when it is full: a
/// snapshot that merges moves the newest point to its time; one that does
/// not is appended, and where the history already held `MAX_HISTORY`
/// points, the oldest one goes.
pub proof fn lemma_game_history_drops_oldest_first(h: Seq<GamePoint>, p: GamePoint)
    requires
        h.len() <= MAX_HISTORY,
    ensures
        merges_with(h, p) ==> record_game_point(h, p) == h.update(
            h.len() - 1,
            GamePoint { ts: p.ts, ..h.last() },
        ),
        !merges_with(h, p) && h.len() < MAX_HISTORY ==> record_game_point(h, p) == h.push(p),
        !merges_with(h, p) && h.len() == MAX_HISTORY ==> record_game_point(h, p)
            == h.drop_first().push(p),
{
    if !merges_with(h, p) && h.len() == MAX_HISTORY {
        assert(h.push(p).subrange(1, h.len() as int + 1) =~= h.drop_first().push(p));
    }
}

/// The two-week history drops only its oldest point, and only when it is
/// full, as a game history does.
pub proof fn lemma_two_week_history_drops_oldest_first(h: Seq<TwoWeekPoint>, v: Hours, ts: i64)
    requires
        h.len() <= MAX_HISTORY,
    ensures
        two_week_merges_with(h, v, ts) ==> record_two_week_point(h, v, ts) == h.update(
            h.len() - 1,
            TwoWeekPoint { ts, ..h.last() },
        ),
        !two_week_merges_with(h, v, ts) && h.len() < MAX_HISTORY ==> record_two_week_point(h, v, ts)
            == h.push(TwoWeekPoint { ts, hours: v }),
        !two_week_merges_with(h, v, ts) && h.len() == MAX_HISTORY ==> record_two_week_point(
            h,
            v,
            ts,
        ) == h.drop_first().push(TwoWeekPoint { ts, hours: v }),
{
    let q = TwoWeekPoint { ts, hours: v };
    if two_week_merges_with(h, v, ts) {
        lemma_capped(h.update(h.len() - 1, TwoWeekPoint { ts, ..h.last() }));
    } else if h.len() == MAX_HISTORY {
        assert(h.push(q).subrange(1, h.len() as int + 1) =~= h.drop_first().push(q));
    }
}

/// A game history whose newest point is moved to time `ts`.
pub open spec fn retimed_points(h: Seq<GamePoint>, ts: i64) -> Seq<GamePoint> {
    h.update(h.len() - 1, GamePoint { ts, ..h.last() })
}

/// A two-week history whose newest point is moved to time `ts`.
pub open spec fn retimed_two_week(h: Seq<TwoWeekPoint>, ts: i64) -> Seq<TwoWeekPoint> {
    h.update(h.len() - 1, TwoWeekPoint { ts, ..h.last() })
}

/// Whether some report with a nonempty key names the game `k`.
pub open spec fn reported(gs: Seq<GameDataView>, k: Seq<char>) -> bool {
    exists|j: int| 0 <= j < gs.len() && #[trigger] report_key(gs[j]) == k && k.len() > 0
}

/// Whether no hours that a snapshot reports are NaN.
pub open spec fn reports_defined(gs: Seq<GameDataView>, two_weeks_total: Option<Hours>) -> bool {
    &&& opt_defined(two_weeks_total)
    &&& forall|j: int|
        0 <= j < gs.len() ==> opt_defined(#[trigger] gs[j].hours_record) && opt_defined(
            gs[j].hours_2weeks,
        )
}

/// Whether no hours that the user's games now show are NaN.
pub open spec fn games_defined(u: UserView) -> bool {
    forall|k: Seq<char>| #[trigger]
        u.games.contains_key(k) ==> defined(u.games[k].hours_record) && opt_defined(
            u.games[k].hours_2weeks,
        )
}

/// A user as a repeated snapshot at `ts` leaves it: seen at `ts` at the
/// latest, with the newest point of the two-week history (where the snapshot
/// has a total) and of every reported game moved to `ts`, and nothing else
/// changed.
pub open spec fn repeated_snapshot(
    u: UserView,
    gs: Seq<GameDataView>,
    two_weeks_total: Option<Hours>,
    ts: i64,
) -> UserView {
    UserView {
        last_seen: if ts > u.last_seen {
            ts
        } else {
            u.last_seen
        },
        two_weeks_history: if two_weeks_total is Some {
            retimed_two_week(u.two_weeks_history, ts)
        } else {
            u.two_weeks_history
        },
        games: Map::new(
            |k: Seq<char>| u.games.contains_key(k),
            |k: Seq<char>|
                if reported(gs, k) {
                    GameView { history: retimed_points(u.games[k].history, ts), ..u.games[k] }
                } else {
                    u.games[k]
                },
        ),
        ..u
    }
}

proof fn lemma_updated_game_twice(b: GameView, g: GameDataView, t1: i64, t2: i64)
    requires
        within_window(t1, t2),
        defined(updated_game(b, g, t1).hours_record),
        opt_defined(updated_game(b, g, t1).hours_2weeks),
    ensures
        updated_game(updated_game(b, g, t1), g, t2) == (GameView {
            history: retimed_points(updated_game(b, g, t1).history, t2),
            ..updated_game(b, g, t1)
        }),
{
    let u1 = updated_game(b, g, t1);
    let p1 = GamePoint { ts: t1, hours_2weeks: u1.hours_2weeks, hours_record: u1.hours_record };
    lemma_record_game_point_last(b.history, p1);
    let u2 = updated_game(u1, g, t2);
    assert(u2.hours_record == u1.hours_record);
    assert(u2.hours_2weeks == u1.hours_2weeks);
    assert(merges_with(u1.history, GamePoint { ts: t2, hours_2weeks: u2.hours_2weeks, hours_record: u2.hours_record }));
    assert(u2.history =~= retimed_points(u1.history, t2));
}

proof fn lemma_reported_defined(
    g0: Map<Seq<char>, GameView>,
    gs: Seq<GameDataView>,
    j: int,
    ts: i64,
)
    requires
        0 <= j < gs.len(),
        reports_defined(gs, None),
        forall|k: Seq<char>| #[trigger]
            g0.contains_key(k) ==> defined(g0[k].hours_record) && opt_defined(g0[k].hours_2weeks),
    ensures
        defined(updated_game(game_base(g0, gs[j]), gs[j], ts).hours_record),
        opt_defined(updated_game(game_base(g0, gs[j]), gs[j], ts).hours_2weeks),
{
    assert(opt_defined(gs[j].hours_record) && opt_defined(gs[j].hours_2weeks));
    if !g0.contains_key(report_key(gs[j])) {
        assert((0u64 & crate::db::EXPONENT_BITS) == 0) by (bit_vector);
    }
}

/// Identical snapshots within the merge window are merged: a snapshot
/// repeated at `ts2`, after one at `ts1`, charts no new point; it only moves
/// the newest points to `ts2`, as `repeated_snapshot` says. It does not hold
/// where a snapshot reports one game twice (the second report of the
/// repeated snapshot follows the first, whose hours may differ), nor where
/// hours are NaN (NaN equals nothing, so nothing merges).
pub proof fn lemma_repeated_snapshot_merges(
    db: Map<Seq<char>, UserView>,
    key: Seq<char>,
    url: Seq<char>,
    persona: Option<Seq<char>>,
    gs: Seq<GameDataView>,
    two_weeks_total: Option<Hours>,
    ts1: i64,
    ts2: i64,
)
    requires
        distinct_reports(gs),
        reports_defined(gs, two_weeks_total),
        db.contains_key(key) ==> games_defined(db[key]),
        within_window(ts1, ts2),
    ensures
        apply_callback_spec(
            apply_callback_spec(db, key, url, persona, gs, two_weeks_total, ts1),
            key,
            url,
            persona,
            gs,
            two_weeks_total,
            ts2,
        ) == apply_callback_spec(db, key, url, persona, gs, two_weeks_total, ts1).insert(
            key,
            repeated_snapshot(
                apply_callback_spec(db, key, url, persona, gs, two_weeks_total, ts1)[key],
                gs,
                two_weeks_total,
                ts2,
            ),
        ),
{
    let db1 = apply_callback_spec(db, key, url, persona, gs, two_weeks_total, ts1);
    let base = if db.contains_key(key) {
        db[key]
    } else {
        new_user(key, url)
    };
    let u1 = db1[key];
    assert(u1 == apply_snapshot(base, url, persona, gs, two_weeks_total, ts1));
    let u2 = apply_snapshot(u1, url, persona, gs, two_weeks_total, ts2);
    let expected = repeated_snapshot(u1, gs, two_weeks_total, ts2);
    match two_weeks_total {
        Some(v) => {
            lemma_record_two_week_point_last(base.two_weeks_history, v, ts1);
            let h1 = u1.two_weeks_history;
            assert(two_week_merges_with(h1, v, ts2));
            lemma_capped(h1.update(h1.len() - 1, TwoWeekPoint { ts: ts2, ..h1.last() }));
            assert(u2.two_weeks_history =~= expected.two_weeks_history);
        },
        None => {},
    }
    let g0 = base.games;
    let g1 = apply_games(g0, gs, ts1);
    let g2 = apply_games(g1, gs, ts2);
    assert(reports_defined(gs, None));
    assert forall|k: Seq<char>| #[trigger] g2.contains_key(k) == g1.contains_key(k) && (g1.contains_key(k) ==> g2[k] == expected.games[k]) by {
        if reported(gs, k) {
            let j = choose|j: int| 0 <= j < gs.len() && #[trigger] report_key(gs[j]) == k && k.len() > 0;
            lemma_apply_games_reported(g0, gs, ts1, j);
            lemma_apply_games_reported(g1, gs, ts2, j);
            lemma_reported_defined(g0, gs, j, ts1);
            lemma_updated_game_twice(game_base(g0, gs[j]), gs[j], ts1, ts2);
        } else {
            lemma_apply_games_unreported(g1, gs, ts2, k);
        }
    }
    assert(u2.games =~= expected.games);
    assert(u2 =~= expected);
    assert(apply_callback_spec(db1, key, url, persona, gs, two_weeks_total, ts2) =~= db1.insert(key, expected));
}

/// After a snapshot, the user has been seen at its time at the latest, never
/// earlier than before; a reported two-week total is stored, and the newest
/// two-week point is at the snapshot's time and shows it; and the newest
/// point of every reported game is at the snapshot's time and shows the
/// game's hours as they now stand (bit for bit, or equal as doubles where
/// an earlier point merged).
pub proof fn lemma_snapshot_is_newest_point(
    db: Map<Seq<char>, UserView>,
    key: Seq<char>,
    url: Seq<char>,
    persona: Option<Seq<char>>,
    gs: Seq<GameDataView>,
    two_weeks_total: Option<Hours>,
    ts: i64,
)
    requires
        distinct_reports(gs),
    ensures
        ({
            let u = apply_callback_spec(db, key, url, persona, gs, two_weeks_total, ts)[key];
            &&& u.last_seen >= ts
            &&& db.contains_key(key) ==> u.last_seen >= db[key].last_seen
            &&& u.url == url
            &&& two_weeks_total matches Some(v) ==> {
                &&& u.two_weeks_total == Some(v)
                &&& u.two_weeks_history.len() > 0
                &&& u.two_weeks_history.last().ts == ts
                &&& (u.two_weeks_history.last().hours == v || same_value(
                    u.two_weeks_history.last().hours,
                    v,
                ))
            }
            &&& forall|j: int|
                0 <= j < gs.len() && report_key(#[trigger] gs[j]).len() > 0 ==> {
                    let game = u.games[report_key(gs[j])];
                    &&& u.games.contains_key(report_key(gs[j]))
                    &&& game.history.len() > 0
                    &&& game.history.last().ts == ts
                    &&& shows_hours(game.history.last(), game.hours_2weeks, game.hours_record)
                }
        }),
{
    let base = if db.contains_key(key) {
        db[key]
    } else {
        new_user(key, url)
    };
    match two_weeks_total {
        Some(v) => {
            lemma_record_two_week_point_last(base.two_weeks_history, v, ts);
        },
        None => {},
    }
    assert forall|j: int| 0 <= j < gs.len() && report_key(#[trigger] gs[j]).len() > 0 implies {
        let game = apply_games(base.games, gs, ts)[report_key(gs[j])];
        &&& apply_games(base.games, gs, ts).contains_key(report_key(gs[j]))
        &&& game.history.len() > 0
        &&& game.history.last().ts == ts
        &&& shows_hours(game.history.last(), game.hours_2weeks, game.hours_record)
    } by {
        lemma_apply_games_reported(base.games, gs, ts, j);
        let b = game_base(base.games, gs[j]);
        let u = updated_game(b, gs[j], ts);
        lemma_record_game_point_last(b.history, GamePoint { ts, hours_2weeks: u.hours_2weeks, hours_record: u.hours_record });
    }
}

/// Recording the same snapshot twice, at the same time, leaves the database
/// as recording it once. It does not hold where a snapshot reports one game
/// twice, nor where hours are NaN.
pub proof fn lemma_snapshot_idempotent(
    db: Map<Seq<char>, UserView>,
    key: Seq<char>,
    url: Seq<char>,
    persona: Option<Seq<char>>,
    gs: Seq<GameDataView>,
    two_weeks_total: Option<Hours>,
    ts: i64,
)
    requires
        distinct_reports(gs),
        reports_defined(gs, two_weeks_total),
        db.contains_key(key) ==> games_defined(db[key]),
    ensures
        apply_callback_spec(
            apply_callback_spec(db, key, url, persona, gs, two_weeks_total, ts),
            key,
            url,
            persona,
            gs,
            two_weeks_total,
            ts,
        ) == apply_callback_spec(db, key, url, persona, gs, two_weeks_total, ts),
{
    let db1 = apply_callback_spec(db, key, url, persona, gs, two_weeks_total, ts);
    let u1 = db1[key];
    lemma_repeated_snapshot_merges(db, key, url, persona, gs, two_weeks_total, ts, ts);
    lemma_snapshot_is_newest_point(db, key, url, persona, gs, two_weeks_total, ts);
    let r = repeated_snapshot(u1, gs, two_weeks_total, ts);
    if two_weeks_total is Some {
        assert(r.two_weeks_history =~= u1.two_weeks_history);
    }
    assert forall|k: Seq<char>| #[trigger] u1.games.contains_key(k) implies r.games[k] == u1.games[k] by {
        if reported(gs, k) {
            let j = choose|j: int| 0 <= j < gs.len() && #[trigger] report_key(gs[j]) == k && k.len() > 0;
            assert(report_key(gs[j]).len() > 0);
            assert(r.games[k].history =~= u1.games[k].history);
        }
    }
    assert(r.games =~= u1.games);
    assert(r =~= u1);
    assert(db1.insert(key, r) =~= db1);
}

/// Whether no history of the user holds more than `MAX_HISTORY` points.
pub open spec fn histories_bounded(u: UserView) -> bool {
    &&& u.two_weeks_history.len() <= MAX_HISTORY
    &&& forall|k: Seq<char>| #[trigger]
        u.games.contains_key(k) ==> u.games[k].history.len() <= MAX_HISTORY
}

proof fn lemma_apply_games_bounded(m: Map<Seq<char>, GameView>, gs: Seq<GameDataView>, ts: i64)
    requires
        forall|k: Seq<char>| #[trigger] m.contains_key(k) ==> m[k].history.len() <= MAX_HISTORY,
    ensures
        forall|k: Seq<char>| #[trigger]
            apply_games(m, gs, ts).contains_key(k) ==> apply_games(m, gs, ts)[k].history.len()
                <= MAX_HISTORY,
    decreases gs.len(),
{
    if gs.len() > 0 {
        let prev = apply_games(m, gs.drop_last(), ts);
        lemma_apply_games_bounded(m, gs.drop_last(), ts);
        let g = gs.last();
        if report_key(g).len() > 0 {
            let b = game_base(prev, g);
            let u = updated_game(b, g, ts);
            lemma_record_game_point_last(b.history, GamePoint { ts, hours_2weeks: u.hours_2weeks, hours_record: u.hours_record });
        }
    }
}

/// A snapshot keeps its user's histories within `MAX_HISTORY` points where
/// they were within it (the oldest points are dropped first: see
/// `lemma_game_history_drops_oldest_first`); every other user is left as it
/// was (`lemma_snapshot_touches_one_user`).
pub proof fn lemma_snapshot_keeps_histories_bounded(
    db: Map<Seq<char>, UserView>,
    key: Seq<char>,
    url: Seq<char>,
    persona: Option<Seq<char>>,
    gs: Seq<GameDataView>,
    two_weeks_total: Option<Hours>,
    ts: i64,
)
    requires
        db.contains_key(key) ==> histories_bounded(db[key]),
    ensures
        histories_bounded(apply_callback_spec(db, key, url, persona, gs, two_weeks_total, ts)[key]),
{
    let base = if db.contains_key(key) {
        db[key]
    } else {
        new_user(key, url)
    };
    assert(histories_bounded(base));
    match two_weeks_total {
        Some(v) => {
            lemma_record_two_week_point_last(base.two_weeks_history, v, ts);
        },
        None => {},
    }
    lemma_apply_games_bounded(base.games, gs, ts);
}

/// A snapshot of one user leaves every other user as it was.
pub proof fn lemma_snapshot_touches_one_user(
    db: Map<Seq<char>, UserView>,
    key: Seq<char>,
    url: Seq<char>,
    persona: Option<Seq<char>>,
    gs: Seq<GameDataView>,
    two_weeks_total: Option<Hours>,
    ts: i64,
    other: Seq<char>,
)
    requires
        other != key,
    ensures
        apply_callback_spec(db, key, url, persona, gs, two_weeks_total, ts).contains_key(other)
            == db.contains_key(other),
        db.contains_key(other) ==> apply_callback_spec(
            db,
            key,
            url,
            persona,
            gs,
            two_weeks_total,
            ts,
        )[other] == db[other],
        apply_callback_spec(db, key, url, persona, gs, two_weeks_total, ts).contains_key(key),
{
}

/// Whether the points of a game history lie in time order, none later than
/// `ts`.
pub open spec fn points_in_order(h: Seq<GamePoint>, ts: i64) -> bool {
    &&& forall|i: int, j: int| 0 <= i < j < h.len() ==> #[trigger] h[i].ts <= #[trigger] h[j].ts
    &&& forall|i: int| 0 <= i < h.len() ==> #[trigger] h[i].ts <= ts
}

/// Whether the points of a two-week history lie in time order, none later
/// than `ts`.
pub open spec fn two_week_in_order(h: Seq<TwoWeekPoint>, ts: i64) -> bool {
    &&& forall|i: int, j: int| 0 <= i < j < h.len() ==> #[trigger] h[i].ts <= #[trigger] h[j].ts
    &&& forall|i: int| 0 <= i < h.len() ==> #[trigger] h[i].ts <= ts
}

/// Whether every history of the user lies in time order, none later than
/// `ts`.
pub open spec fn user_in_order(u: UserView, ts: i64) -> bool {
    &&& two_week_in_order(u.two_weeks_history, ts)
    &&& forall|k: Seq<char>| #[trigger]
        u.games.contains_key(k) ==> points_in_order(u.games[k].history, ts)
}

proof fn lemma_capped_points_in_order(s: Seq<GamePoint>, ts: i64)
    requires
        points_in_order(s, ts),
    ensures
        points_in_order(capped(s), ts),
{
    if s.len() > MAX_HISTORY {
        let off = s.len() - MAX_HISTORY;
        let c = capped(s);
        assert forall|i: int, j: int| 0 <= i < j < c.len() implies #[trigger] c[i].ts <= #[trigger] c[j].ts by {
            assert(c[i] == s[i + off]);
            assert(c[j] == s[j + off]);
        }
        assert forall|i: int| 0 <= i < c.len() implies #[trigger] c[i].ts <= ts by {
            assert(c[i] == s[i + off]);
        }
    }
}

proof fn lemma_capped_two_week_in_order(s: Seq<TwoWeekPoint>, ts: i64)
    requires
        two_week_in_order(s, ts),
    ensures
        two_week_in_order(capped(s), ts),
{
    if s.len() > MAX_HISTORY {
        let off = s.len() - MAX_HISTORY;
        let c = capped(s);
        assert forall|i: int, j: int| 0 <= i < j < c.len() implies #[trigger] c[i].ts <= #[trigger] c[j].ts by {
            assert(c[i] == s[i + off]);
            assert(c[j] == s[j + off]);
        }
        assert forall|i: int| 0 <= i < c.len() implies #[trigger] c[i].ts <= ts by {
            assert(c[i] == s[i + off]);
        }
    }
}

proof fn lemma_record_game_point_in_order(h: Seq<GamePoint>, p: GamePoint)
    requires
        points_in_order(h, p.ts),
    ensures
        points_in_order(record_game_point(h, p), p.ts),
{
    if merges_with(h, p) {
        let r = h.update(h.len() - 1, GamePoint { ts: p.ts, ..h.last() });
        assert forall|i: int, j: int| 0 <= i < j < r.len() implies #[trigger] r[i].ts <= #[trigger] r[j].ts by {
            assert(r[i].ts == h[i].ts || i == h.len() - 1);
        }
        assert forall|i: int| 0 <= i < r.len() implies #[trigger] r[i].ts <= p.ts by {
            assert(r[i].ts == h[i].ts || i == h.len() - 1);
        }
    } else {
        let r = h.push(p);
        assert forall|i: int, j: int| 0 <= i < j < r.len() implies #[trigger] r[i].ts <= #[trigger] r[j].ts by {
            assert(r[i] == h[i]);
            if j < h.len() {
                assert(r[j] == h[j]);
            }
        }
        assert forall|i: int| 0 <= i < r.len() implies #[trigger] r[i].ts <= p.ts by {
            if i < h.len() {
                assert(r[i] == h[i]);
            }
        }
        lemma_capped_points_in_order(r, p.ts);
    }
}

proof fn lemma_record_two_week_point_in_order(h: Seq<TwoWeekPoint>, v: Hours, ts: i64)
    requires
        two_week_in_order(h, ts),
    ensures
        two_week_in_order(record_two_week_point(h, v, ts), ts),
{
    if two_week_merges_with(h, v, ts) {
        let r = h.update(h.len() - 1, TwoWeekPoint { ts, ..h.last() });
        assert forall|i: int, j: int| 0 <= i < j < r.len() implies #[trigger] r[i].ts <= #[trigger] r[j].ts by {
            assert(r[i].ts == h[i].ts || i == h.len() - 1);
        }
        assert forall|i: int| 0 <= i < r.len() implies #[trigger] r[i].ts <= ts by {
            assert(r[i].ts == h[i].ts || i == h.len() - 1);
        }
        lemma_capped_two_week_in_order(r, ts);
    } else {
        let r = h.push(TwoWeekPoint { ts, hours: v });
        assert forall|i: int, j: int| 0 <= i < j < r.len() implies #[trigger] r[i].ts <= #[trigger] r[j].ts by {
            assert(r[i] == h[i]);
            if j < h.len() {
                assert(r[j] == h[j]);
            }
        }
        assert forall|i: int| 0 <= i < r.len() implies #[trigger] r[i].ts <= ts by {
            if i < h.len() {
                assert(r[i] == h[i]);
            }
        }
        lemma_capped_two_week_in_order(r, ts);
    }
}

proof fn lemma_apply_games_in_order(m: Map<Seq<char>, GameView>, gs: Seq<GameDataView>, ts: i64)
    requires
        forall|k: Seq<char>| #[trigger] m.contains_key(k) ==> points_in_order(m[k].history, ts),
    ensures
        forall|k: Seq<char>| #[trigger]
            apply_games(m, gs, ts).contains_key(k) ==> points_in_order(
                apply_games(m, gs, ts)[k].history,
                ts,
            ),
        forall|j: int|
            0 <= j < gs.len() && report_key(#[trigger] gs[j]).len() > 0 ==> {
                &&& apply_games(m, gs, ts).contains_key(report_key(gs[j]))
                &&& apply_games(m, gs, ts)[report_key(gs[j])].history.len() > 0
                &&& apply_games(m, gs, ts)[report_key(gs[j])].history.last().ts == ts
            },
    decreases gs.len(),
{
    if gs.len() > 0 {
        let d = gs.drop_last();
        let prev = apply_games(m, d, ts);
        lemma_apply_games_in_order(m, d, ts);
        let g = gs.last();
        let k = report_key(g);
        if k.len() > 0 {
            let b = game_base(prev, g);
            let u = updated_game(b, g, ts);
            let p = GamePoint { ts, hours_2weeks: u.hours_2weeks, hours_record: u.hours_record };
            assert(points_in_order(b.history, ts));
            lemma_record_game_point_in_order(b.history, p);
            lemma_record_game_point_last(b.history, p);
        }
        assert forall|j: int|
            0 <= j < gs.len() && report_key(#[trigger] gs[j]).len() > 0 implies {
                &&& apply_games(m, gs, ts).contains_key(report_key(gs[j]))
                &&& apply_games(m, gs, ts)[report_key(gs[j])].history.len() > 0
                &&& apply_games(m, gs, ts)[report_key(gs[j])].history.last().ts == ts
            } by {
            if j < d.len() {
                assert(d[j] == gs[j]);
            }
        }
    }
}

/// Snapshots that arrive in time order keep every history of their user in
/// time order: where the user's histories were in order, none later than the
/// snapshot, they still are, and every history the snapshot touched (the
/// two-week history where it has a total, and each reported game) ends at
/// the snapshot's time.
pub proof fn lemma_snapshot_keeps_time_order(
    db: Map<Seq<char>, UserView>,
    key: Seq<char>,
    url: Seq<char>,
    persona: Option<Seq<char>>,
    gs: Seq<GameDataView>,
    two_weeks_total: Option<Hours>,
    ts: i64,
)
    requires
        db.contains_key(key) ==> user_in_order(db[key], ts),
    ensures
        ({
            let u = apply_callback_spec(db, key, url, persona, gs, two_weeks_total, ts)[key];
            &&& user_in_order(u, ts)
            &&& two_weeks_total is Some ==> u.two_weeks_history.len() > 0
                && u.two_weeks_history.last().ts == ts
            &&& forall|j: int|
                0 <= j < gs.len() && report_key(#[trigger] gs[j]).len() > 0 ==> {
                    &&& u.games.contains_key(report_key(gs[j]))
                    &&& u.games[report_key(gs[j])].history.len() > 0
                    &&& u.games[report_key(gs[j])].history.last().ts == ts
                }
        }),
{
    let base = if db.contains_key(key) {
        db[key]
    } else {
        new_user(key, url)
    };
    assert(user_in_order(base, ts));
    match two_weeks_total {
        Some(v) => {
            lemma_record_two_week_point_in_order(base.two_weeks_history, v, ts);
            lemma_record_two_week_point_last(base.two_weeks_history, v, ts);
        },
        None => {},
    }
    lemma_apply_games_in_order(base.games, gs, ts);
}

/// Whether `s` is the decimal numeral of some `u32`.
pub open spec fn is_u32_numeral(s: Seq<char>) -> bool {
    exists|n: u32| decimal(n as nat) == s
}

/// Whether every game is stored under its own key, and every game without an
/// appid has a name that no appid could be mistaken for.
pub open spec fn game_keys_consistent(games: Map<Seq<char>, GameView>) -> bool {
    forall|k: Seq<char>| #[trigger]
        games.contains_key(k) ==> game_key(games[k].appid, games[k].name) == k && (
        games[k].appid is None ==> !is_u32_numeral(games[k].name))
}

/// Whether every user is stored under its own key, with its games stored as
/// `game_keys_consistent` says.
pub open spec fn keys_consistent(db: Map<Seq<char>, UserView>) -> bool {
    forall|k: Seq<char>| #[trigger]
        db.contains_key(k) ==> db[k].key == k && game_keys_consistent(db[k].games)
}

/// Whether every reported game without an appid has a name that no appid
/// could be mistaken for.
pub open spec fn report_names_plain(gs: Seq<GameDataView>) -> bool {
    forall|j: int|
        0 <= j < gs.len() && (#[trigger] gs[j]).appid is None ==> !is_u32_numeral(gs[j].name)
}

proof fn lemma_apply_games_keys(m: Map<Seq<char>, GameView>, gs: Seq<GameDataView>, ts: i64)
    requires
        game_keys_consistent(m),
        report_names_plain(gs),
    ensures
        game_keys_consistent(apply_games(m, gs, ts)),
    decreases gs.len(),
{
    if gs.len() > 0 {
        let d = gs.drop_last();
        assert(report_names_plain(d)) by {
            assert forall|j: int| 0 <= j < d.len() && (#[trigger] d[j]).appid is None implies !is_u32_numeral(d[j].name) by {
                assert(d[j] == gs[j]);
            }
        }
        lemma_apply_games_keys(m, d, ts);
        let prev = apply_games(m, d, ts);
        let g = gs.last();
        let k = report_key(g);
        assert(g.appid is None ==> !is_u32_numeral(g.name));
        if k.len() > 0 {
            let b = game_base(prev, g);
            let u = updated_game(b, g, ts);
            if prev.contains_key(k) {
                if b.appid is None {
                    assert(b.name == k);
                    match g.appid {
                        Some(a) => {
                            assert(decimal(a as nat) == b.name);
                            assert(is_u32_numeral(b.name));
                        },
                        None => {},
                    }
                }
            }
            assert(game_key(u.appid, u.name) == k);
            assert(game_keys_consistent(prev.insert(k, u)));
        }
    }
}

/// Snapshots keep every user stored under its own key, and every game under
/// its own key (`Game::key`), given that no game without an appid, stored or
/// reported, is named like an appid. (Where one is, a report with that appid
/// can rename it away from its key.)
pub proof fn lemma_snapshot_keeps_keys(
    db: Map<Seq<char>, UserView>,
    key: Seq<char>,
    url: Seq<char>,
    persona: Option<Seq<char>>,
    gs: Seq<GameDataView>,
    two_weeks_total: Option<Hours>,
    ts: i64,
)
    requires
        keys_consistent(db),
        report_names_plain(gs),
    ensures
        keys_consistent(apply_callback_spec(db, key, url, persona, gs, two_weeks_total, ts)),
{
    let base = if db.contains_key(key) {
        db[key]
    } else {
        new_user(key, url)
    };
    assert(game_keys_consistent(base.games));
    lemma_apply_games_keys(base.games, gs, ts);
}

// ---------------------------------------------------------------------------
// The points the graph shows.

/// The kept points of a game history are the points taken at or after the
/// cutoff, in their order, and every point where there is no cutoff.
pub proof fn lemma_kept_points_filter(h: Seq<GamePoint>, cutoff: Option<i64>)
    ensures
        cutoff is None ==> kept_points(h, cutoff) == h,
        cutoff matches Some(c) ==> kept_points(h, cutoff) == h.filter(|p: GamePoint| c <= p.ts),
    decreases h.len(),
{
    reveal(Seq::filter);
    if h.len() > 0 {
        lemma_kept_points_filter(h.drop_last(), cutoff);
        if cutoff is None {
            assert(h.drop_last().push(h.last()) =~= h);
        }
    }
}

/// The kept points of a two-week history are the points taken at or after
/// the cutoff, in their order, and every point where there is no cutoff.
pub proof fn lemma_kept_two_week_filter(h: Seq<TwoWeekPoint>, cutoff: Option<i64>)
    ensures
        cutoff is None ==> kept_two_week(h, cutoff) == h,
        cutoff matches Some(c) ==> kept_two_week(h, cutoff) == h.filter(
            |p: TwoWeekPoint| c <= p.ts,
        ),
    decreases h.len(),
{
    reveal(Seq::filter);
    if h.len() > 0 {
        lemma_kept_two_week_filter(h.drop_last(), cutoff);
        if cutoff is None {
            assert(h.drop_last().push(h.last()) =~= h);
        }
    }
}

proof fn lemma_points_at_filter(pts: Seq<GamePoint>, t: i64)
    ensures
        points_at(pts, t) == pts.filter(|p: GamePoint| p.ts == t),
    decreases pts.len(),
{
    reveal(Seq::filter);
    if pts.len() > 0 {
        lemma_points_at_filter(pts.drop_last(), t);
    }
}

/// Whether a point taken at `ts` lies within the timeframe from `cutoff`.
pub open spec fn within_timeframe(ts: i64, cutoff: Option<i64>) -> bool {
    match cutoff {
        Some(c) => c <= ts,
        None => true,
    }
}

proof fn lemma_kept_points_contains(h: Seq<GamePoint>, cutoff: Option<i64>, x: GamePoint)
    ensures
        kept_points(h, cutoff).contains(x) <==> h.contains(x) && within_timeframe(x.ts, cutoff),
{
    lemma_kept_points_filter(h, cutoff);
    match cutoff {
        Some(c) => {
            let f = |p: GamePoint| c <= p.ts;
            if h.filter(f).contains(x) {
                h.lemma_filter_contains_rev(f, x);
                let i = choose|i: int| 0 <= i < h.filter(f).len() && h.filter(f)[i] == x;
                h.lemma_filter_pred(f, i);
            }
            if h.contains(x) && c <= x.ts {
                let i = choose|i: int| 0 <= i < h.len() && h[i] == x;
                h.lemma_filter_contains(f, i);
            }
        },
        None => {},
    }
}

proof fn lemma_all_kept_points_contains(games: Seq<Game>, cutoff: Option<i64>, x: GamePoint)
    ensures
        all_kept_points(games, cutoff).contains(x) <==> (exists|g: int|
            0 <= g < games.len() && #[trigger] games[g].history@.contains(x))
            && within_timeframe(x.ts, cutoff),
    decreases games.len(),
{
    if games.len() > 0 {
        let d = games.drop_last();
        let last = games.last();
        lemma_all_kept_points_contains(d, cutoff, x);
        lemma_kept_points_contains(last.history@, cutoff, x);
        let a = all_kept_points(d, cutoff);
        let b = kept_points(last.history@, cutoff);
        if (a + b).contains(x) {
            let i = choose|i: int| 0 <= i < (a + b).len() && (a + b)[i] == x;
            if i < a.len() {
                assert(a[i] == x);
                let g = choose|g: int| 0 <= g < d.len() && #[trigger] d[g].history@.contains(x);
                assert(games[g] == d[g]);
            } else {
                assert(b[i - a.len()] == x);
                assert(games[games.len() - 1] == last);
            }
        }
        if (exists|g: int| 0 <= g < games.len() && #[trigger] games[g].history@.contains(x))
            && within_timeframe(x.ts, cutoff) {
            let g = choose|g: int| 0 <= g < games.len() && #[trigger] games[g].history@.contains(x);
            if g < d.len() {
                assert(d[g] == games[g]);
                assert(a.contains(x));
                let i = choose|i: int| 0 <= i < a.len() && a[i] == x;
                assert((a + b)[i] == x);
            } else {
                assert(b.contains(x));
                let i = choose|i: int| 0 <= i < b.len() && b[i] == x;
                assert((a + b)[a.len() + i] == x);
            }
        }
    }
}

/// The "all games" points group every point within the timeframe of every
/// game, whatever its appid, under the time it was taken, and nothing else:
/// each point of a game's history taken within the timeframe lies in the
/// group of its time, and each point of a group is a point of some game's
/// history, taken at the group's time, within the timeframe.
pub proof fn lemma_grouping_holds_every_kept_point(
    games: Seq<Game>,
    cutoff: Option<i64>,
    groups: Seq<(i64, Vec<GamePoint>)>,
)
    requires
        is_grouping(all_kept_points(games, cutoff), groups),
    ensures
        forall|g: int, i: int|
            0 <= g < games.len() && 0 <= i < games[g].history@.len() && within_timeframe(
                games[g].history@[i].ts,
                cutoff,
            ) ==> exists|a: int|
                0 <= a < groups.len() && groups[a].0 == games[g].history@[i].ts
                    && #[trigger] groups[a].1@.contains(games[g].history@[i]),
        forall|a: int, x: GamePoint|
            0 <= a < groups.len() && #[trigger] groups[a].1@.contains(x) ==> {
                &&& x.ts == groups[a].0
                &&& within_timeframe(x.ts, cutoff)
                &&& exists|g: int| 0 <= g < games.len() && #[trigger] games[g].history@.contains(x)
            },
{
    let pts = all_kept_points(games, cutoff);
    assert forall|g: int, i: int|
        0 <= g < games.len() && 0 <= i < games[g].history@.len() && within_timeframe(
            games[g].history@[i].ts,
            cutoff,
        ) implies exists|a: int|
        0 <= a < groups.len() && groups[a].0 == games[g].history@[i].ts
            && #[trigger] groups[a].1@.contains(games[g].history@[i]) by {
        let x = games[g].history@[i];
        assert(games[g].history@.contains(x));
        lemma_all_kept_points_contains(games, cutoff, x);
        let k = choose|k: int| 0 <= k < pts.len() && pts[k] == x;
        let a = choose|a: int| 0 <= a < groups.len() && groups[a].0 == #[trigger] pts[k].ts;
        lemma_points_at_filter(pts, x.ts);
        pts.lemma_filter_contains(|p: GamePoint| p.ts == x.ts, k);
        assert(groups[a].1@ == points_at(pts, groups[a].0));
    }
    assert forall|a: int, x: GamePoint|
        0 <= a < groups.len() && #[trigger] groups[a].1@.contains(x) implies {
            &&& x.ts == groups[a].0
            &&& within_timeframe(x.ts, cutoff)
            &&& exists|g: int| 0 <= g < games.len() && #[trigger] games[g].history@.contains(x)
        } by {
        let t = groups[a].0;
        let f = |p: GamePoint| p.ts == t;
        assert(groups[a].1@ == points_at(pts, t));
        lemma_points_at_filter(pts, t);
        pts.lemma_filter_contains_rev(f, x);
        let i = choose|i: int| 0 <= i < pts.filter(f).len() && pts.filter(f)[i] == x;
        pts.lemma_filter_pred(f, i);
        lemma_all_kept_points_contains(games, cutoff, x);
    }
}

// ---------------------------------------------------------------------------
// The log line of a snapshot.

/// Whether `s` ends with `t`.
pub open spec fn ends_with(s: Seq<char>, t: Seq<char>) -> bool {
    t.len() <= s.len() && s.subrange(s.len() - t.len(), s.len() as int) == t
}

/// The log line of a snapshot from a profile page starts with
/// `Snapshot from ` and the user key, and ends with ` (manual)` exactly when
/// the snapshot was taken by hand; that of a snapshot that is switched off
/// names the page; that of a snapshot from any other page names its URL.
pub proof fn lemma_callback_message_shape(p: CallbackPayload)
    ensures
        p.disabled ==> ("Monitoring toggled off on "@).is_prefix_of(callback_message(p))
            && ends_with(callback_message(p), p.page@),
        !p.disabled && url_user_key(p.url@) is None ==> ends_with(
            callback_message(p),
            p.url@,
        ) && ("Snapshot from non-profile page: "@).is_prefix_of(callback_message(p)),
        !p.disabled && url_user_key(p.url@) is Some ==> {
            &&& ("Snapshot from "@ + url_user_key(p.url@)->0).is_prefix_of(callback_message(p))
            &&& (ends_with(callback_message(p), " (manual)"@) <==> p.manual)
        },
{
    reveal_strlit(" (manual)");
    reveal_strlit(" game(s)");
    let m = callback_message(p);
    if p.disabled {
        let a = "Monitoring toggled off on "@;
        assert(m.subrange(0, a.len() as int) =~= a);
        assert(m.subrange(m.len() - p.page@.len(), m.len() as int) =~= p.page@);
    } else {
        match url_user_key(p.url@) {
            None => {
                let a = "Snapshot from non-profile page: "@;
                assert(m.subrange(0, a.len() as int) =~= a);
                assert(m.subrange(m.len() - p.url@.len(), m.len() as int) =~= p.url@);
            },
            Some(key) => {
                let persona = match p.persona {
                    Some(name) => " ("@ + name@ + ")"@,
                    None => Seq::empty(),
                };
                let core = "Snapshot from "@ + key + persona + ": "@ + decimal(p.games@.len())
                    + " game(s)"@;
                let a = "Snapshot from "@ + key;
                assert(core.subrange(0, a.len() as int) =~= a);
                if p.manual {
                    assert(m == core + " (manual)"@);
                    assert(m.subrange(0, a.len() as int) =~= a);
                    assert(m.subrange(m.len() - 9, m.len() as int) =~= " (manual)"@);
                } else {
                    assert(m =~= core);
                    assert(m[m.len() - 2] == 's');
                    if ends_with(m, " (manual)"@) {
                        assert(m.subrange(m.len() - 9, m.len() as int)[7] == m[m.len() - 2]);
                    }
                }
            },
        }
    }
}

// ---------------------------------------------------------------------------
// What a snapshot stores of the hours it reports.

/// After a snapshot that reports each game once, every reported game is
/// stored with the hours it was reported with, and shows them in its newest
/// point, taken at the snapshot's time; hours the report leaves out keep the
/// value stored before (none for two-week hours and zero on record for a new
/// game); a nonempty reported name replaces the stored one. (The newest
/// point may keep hours equal as doubles but not bit for bit, where an
/// earlier point merged.)
pub proof fn lemma_snapshot_stores_reported_hours(
    db: Map<Seq<char>, UserView>,
    key: Seq<char>,
    url: Seq<char>,
    persona: Option<Seq<char>>,
    gs: Seq<GameDataView>,
    two_weeks_total: Option<Hours>,
    ts: i64,
    j: int,
)
    requires
        distinct_reports(gs),
        0 <= j < gs.len(),
        report_key(gs[j]).len() > 0,
    ensures
        ({
            let u = apply_callback_spec(db, key, url, persona, gs, two_weeks_total, ts)[key];
            let k = report_key(gs[j]);
            let game = u.games[k];
            let before = if db.contains_key(key) && db[key].games.contains_key(k) {
                Some(db[key].games[k])
            } else {
                None
            };
            let last = game.history.last();
            &&& u.games.contains_key(k)
            &&& game.history.len() > 0
            &&& last.ts == ts
            &&& match gs[j].hours_2weeks {
                Some(v) => game.hours_2weeks == Some(v) && (last.hours_2weeks == Some(v) || (
                last.hours_2weeks matches Some(w) && same_value(w, v))),
                None => game.hours_2weeks == (match before {
                    Some(b) => b.hours_2weeks,
                    None => None,
                }),
            }
            &&& match gs[j].hours_record {
                Some(v) => game.hours_record == v && (last.hours_record == v || same_value(
                    last.hours_record,
                    v,
                )),
                None => game.hours_record == (match before {
                    Some(b) => b.hours_record,
                    None => Hours { bits: 0 },
                }),
            }
            &&& gs[j].name.len() > 0 ==> game.name == gs[j].name
        }),
{
    let base = if db.contains_key(key) {
        db[key]
    } else {
        new_user(key, url)
    };
    lemma_apply_games_reported(base.games, gs, ts, j);
    let b = game_base(base.games, gs[j]);
    let u = updated_game(b, gs[j], ts);
    lemma_record_game_point_last(b.history, GamePoint { ts, hours_2weeks: u.hours_2weeks, hours_record: u.hours_record });
}

/// A snapshot posted to the listener is recorded under the user key of its
/// URL, with its own URL, time, persona, two-week total and games: the user
/// has been seen at its time at the latest, a nonempty persona is stored, a
/// two-week total is stored and shown by the newest two-week point, taken at
/// the snapshot's time, and (where the snapshot reports each game once)
/// every reported game is stored with its reported hours. A snapshot that is
/// switched off, or that comes from a page that is no profile, changes
/// nothing. Every other user is left as it was.
pub proof fn lemma_payload_recorded(db: Map<Seq<char>, UserView>, p: CallbackPayload)
    ensures
        p.disabled || url_user_key(p.url@) is None ==> crate::listener::apply_payload_spec(db, p)
            == db,
        !p.disabled && url_user_key(p.url@) is Some ==> ({
            let k = url_user_key(p.url@)->0;
            let after = crate::listener::apply_payload_spec(db, p);
            let u = after[k];
            &&& after.contains_key(k)
            &&& forall|other: Seq<char>|
                other != k ==> after.contains_key(other) == db.contains_key(other) && (
                db.contains_key(other) ==> #[trigger] after[other] == db[other])
            &&& u.url == p.url@
            &&& u.last_seen >= p.time
            &&& (p.persona is Some && p.persona->0@.len() > 0 ==> u.persona == Some(
                p.persona->0@,
            ))
            &&& (p.two_weeks_total matches Some(v) ==> {
                &&& u.two_weeks_total == Some(v)
                &&& u.two_weeks_history.len() > 0
                &&& u.two_weeks_history.last().ts == p.time
                &&& (u.two_weeks_history.last().hours == v || same_value(
                    u.two_weeks_history.last().hours,
                    v,
                ))
            })
            &&& (distinct_reports(crate::listener::payload_games(p)) ==> forall|j: int|
                0 <= j < p.games@.len() && #[trigger] report_key(
                    crate::listener::raw_game_data(p.games@[j]),
                ).len() > 0 ==> {
                    let g = crate::listener::raw_game_data(p.games@[j]);
                    let game = u.games[report_key(g)];
                    &&& u.games.contains_key(report_key(g))
                    &&& game.history.len() > 0
                    &&& game.history.last().ts == p.time
                    &&& (g.hours_2weeks matches Some(v) ==> game.hours_2weeks == Some(v))
                    &&& (g.hours_record matches Some(v) ==> game.hours_record == v)
                })
        }),
{
    if !p.disabled && url_user_key(p.url@) is Some {
        let k = url_user_key(p.url@)->0;
        let gs = crate::listener::payload_games(p);
        let persona = opt_string_view(p.persona);
        let base = if db.contains_key(k) {
            db[k]
        } else {
            new_user(k, p.url@)
        };
        match p.two_weeks_total {
            Some(v) => {
                lemma_record_two_week_point_last(base.two_weeks_history, v, p.time);
            },
            None => {},
        }
        if distinct_reports(gs) {
            assert forall|j: int|
                0 <= j < p.games@.len() && #[trigger] report_key(
                    crate::listener::raw_game_data(p.games@[j]),
                ).len() > 0 implies {
                    let g = crate::listener::raw_game_data(p.games@[j]);
                    let game = apply_callback_spec(db, k, p.url@, persona, gs, p.two_weeks_total, p.time)[k].games[report_key(g)];
                    &&& apply_callback_spec(db, k, p.url@, persona, gs, p.two_weeks_total, p.time)[k].games.contains_key(report_key(g))
                    &&& game.history.len() > 0
                    &&& game.history.last().ts == p.time
                    &&& (g.hours_2weeks matches Some(v) ==> game.hours_2weeks == Some(v))
                    &&& (g.hours_record matches Some(v) ==> game.hours_record == v)
                } by {
                assert(gs[j] == crate::listener::raw_game_data(p.games@[j]));
                lemma_snapshot_stores_reported_hours(db, k, p.url@, persona, gs, p.two_weeks_total, p.time, j);
            }
        }
    }
}

} // verus!
