use vstd::prelude::*;

use crate::keyed_map::KeyedMap;
use crate::text::{decimal, decimal_string};

verus! {

/// The most points a history keeps; older points are dropped first.
pub const MAX_HISTORY: usize = 20_000;

/// Identical snapshots closer together than this many milliseconds are merged.
pub const DEDUP_WINDOW_MS: i64 = 60_000;

/// A number of hours, held as the bit pattern of the IEEE-754 double that
/// Steam reported. Hours compare as doubles do (`same_value`): NaN equals
/// nothing, the two zeros are equal, and any other two values are equal
/// exactly when their bit patterns are.
#[derive(Clone, Copy, Debug)]
pub struct Hours {
    pub bits: u64,
}

/// The bit pattern of negative zero.
pub const NEGATIVE_ZERO_BITS: u64 = 0x8000_0000_0000_0000;

/// The exponent bits of a double.
pub const EXPONENT_BITS: u64 = 0x7ff0_0000_0000_0000;

/// The fraction bits of a double.
pub const FRACTION_BITS: u64 = 0x000f_ffff_ffff_ffff;

/// Whether `h` is a NaN: all exponent bits set and a nonzero fraction.
pub open spec fn is_nan(h: Hours) -> bool {
    (h.bits & EXPONENT_BITS) == EXPONENT_BITS && (h.bits & FRACTION_BITS) != 0
}

/// Whether `h` is zero or negative zero.
pub open spec fn is_zero(h: Hours) -> bool {
    h.bits == 0 || h.bits == NEGATIVE_ZERO_BITS
}

/// Whether `a` and `b` are equal as doubles.
pub open spec fn same_value(a: Hours, b: Hours) -> bool {
    !is_nan(a) && !is_nan(b) && (a.bits == b.bits || (is_zero(a) && is_zero(b)))
}

/// Whether two optional hours are both absent, or both present and equal as
/// doubles.
pub open spec fn same_opt_value(a: Option<Hours>, b: Option<Hours>) -> bool {
    match (a, b) {
        (Some(x), Some(y)) => same_value(x, y),
        (None, None) => true,
        _ => false,
    }
}

impl Hours {
    /// The hours whose double has the bit pattern `bits`.
    pub fn from_bits(bits: u64) -> (h: Hours)
        ensures
            h.bits == bits,
    {
        Hours { bits }
    }

    /// Zero hours.
    pub fn zero() -> (h: Hours)
        ensures
            h.bits == 0,
    {
        Hours { bits: 0 }
    }

    /// Whether the two hours are equal as doubles.
    pub fn same(&self, other: &Hours) -> (r: bool)
        ensures
            r == same_value(*self, *other),
    {
        let a_nan = (self.bits & EXPONENT_BITS) == EXPONENT_BITS && (self.bits & FRACTION_BITS) != 0;
        let b_nan = (other.bits & EXPONENT_BITS) == EXPONENT_BITS && (other.bits & FRACTION_BITS)
            != 0;
        let a_zero = self.bits == 0 || self.bits == NEGATIVE_ZERO_BITS;
        let b_zero = other.bits == 0 || other.bits == NEGATIVE_ZERO_BITS;
        !a_nan && !b_nan && (self.bits == other.bits || (a_zero && b_zero))
    }
}

impl PartialEq for Hours {
    fn eq(&self, other: &Hours) -> (r: bool) {
        self.same(other)
    }
}

impl vstd::std_specs::cmp::PartialEqSpecImpl for Hours {
    open spec fn obeys_eq_spec() -> bool {
        true
    }

    open spec fn eq_spec(&self, other: &Hours) -> bool {
        same_value(*self, *other)
    }
}

/// One snapshot of a game: when it was taken and the hours it showed.
#[derive(Clone, Copy, Debug)]
pub struct GamePoint {
    pub ts: i64,
    pub hours_2weeks: Option<Hours>,
    pub hours_record: Hours,
}

/// A game in a user's top played list, with its history of snapshots.
#[derive(Clone, Debug)]
pub struct Game {
    pub appid: Option<u32>,
    pub name: String,
    pub hours_record: Hours,
    pub hours_2weeks: Option<Hours>,
    pub history: Vec<GamePoint>,
}

/// A `Game` as plain values.
#[verifier::ext_equal]
pub struct GameView {
    pub appid: Option<u32>,
    pub name: Seq<char>,
    pub hours_record: Hours,
    pub hours_2weeks: Option<Hours>,
    pub history: Seq<GamePoint>,
}

impl View for Game {
    type V = GameView;

    open spec fn view(&self) -> GameView {
        GameView {
            appid: self.appid,
            name: self.name@,
            hours_record: self.hours_record,
            hours_2weeks: self.hours_2weeks,
            history: self.history@,
        }
    }
}

/// The key of a game: its appid in decimal where it has one, else its name.
pub open spec fn game_key(appid: Option<u32>, name: Seq<char>) -> Seq<char> {
    match appid {
        Some(a) => decimal(a as nat),
        None => name,
    }
}

fn game_key_string(appid: Option<u32>, name: &String) -> (k: String)
    ensures
        k@ == game_key(appid, name@),
{
    match appid {
        Some(a) => decimal_string(a as u64),
        None => name.clone(),
    }
}

impl Game {
    /// The key under which the game is stored.
    pub fn key(&self) -> (k: String)
        ensures
            k@ == game_key(self.appid, self.name@),
    {
        game_key_string(self.appid, &self.name)
    }
}

/// One snapshot of a user's total hours over the past two weeks.
#[derive(Clone, Copy, Debug)]
pub struct TwoWeekPoint {
    pub ts: i64,
    pub hours: Hours,
}

/// A monitored Steam user.
#[derive(Debug)]
pub struct User {
    pub key: String,
    pub url: String,
    pub persona: Option<String>,
    pub last_seen: i64,
    pub two_weeks_total: Option<Hours>,
    pub two_weeks_history: Vec<TwoWeekPoint>,
    pub games: KeyedMap<Game>,
}

/// A `User` as plain values.
#[verifier::ext_equal]
pub struct UserView {
    pub key: Seq<char>,
    pub url: Seq<char>,
    pub persona: Option<Seq<char>>,
    pub last_seen: i64,
    pub two_weeks_total: Option<Hours>,
    pub two_weeks_history: Seq<TwoWeekPoint>,
    pub games: Map<Seq<char>, GameView>,
}

pub open spec fn opt_string_view(s: Option<String>) -> Option<Seq<char>> {
    match s {
        Some(t) => Some(t@),
        None => None,
    }
}

impl View for User {
    type V = UserView;

    open spec fn view(&self) -> UserView {
        UserView {
            key: self.key@,
            url: self.url@,
            persona: opt_string_view(self.persona),
            last_seen: self.last_seen,
            two_weeks_total: self.two_weeks_total,
            two_weeks_history: self.two_weeks_history@,
            games: games_view(self.games.as_map()),
        }
    }
}

/// The views of the games of a map.
pub open spec fn games_view(m: Map<Seq<char>, Game>) -> Map<Seq<char>, GameView> {
    m.map_values(|g: Game| g@)
}

/// The views of the users of a map.
pub open spec fn users_view(m: Map<Seq<char>, User>) -> Map<Seq<char>, UserView> {
    m.map_values(|u: User| u@)
}

/// What a snapshot reports of one game.
#[derive(Clone, Debug)]
pub struct GameData {
    pub appid: Option<u32>,
    pub name: String,
    pub hours_2weeks: Option<Hours>,
    pub hours_record: Option<Hours>,
}

/// A `GameData` as plain values.
pub struct GameDataView {
    pub appid: Option<u32>,
    pub name: Seq<char>,
    pub hours_2weeks: Option<Hours>,
    pub hours_record: Option<Hours>,
}

impl View for GameData {
    type V = GameDataView;

    open spec fn view(&self) -> GameDataView {
        GameDataView {
            appid: self.appid,
            name: self.name@,
            hours_2weeks: self.hours_2weeks,
            hours_record: self.hours_record,
        }
    }
}

/// Every monitored user, by user key.
#[derive(Debug)]
pub struct Database {
    pub users: KeyedMap<User>,
}

impl View for Database {
    type V = Map<Seq<char>, UserView>;

    open spec fn view(&self) -> Map<Seq<char>, UserView> {
        users_view(self.users.as_map())
    }
}

/// The views of a sequence of game reports.
pub open spec fn game_data_views(s: Seq<GameData>) -> Seq<GameDataView> {
    s.map_values(|g: GameData| g@)
}

pub open spec fn opt_str_view(s: Option<&str>) -> Option<Seq<char>> {
    match s {
        Some(t) => Some(t@),
        None => None,
    }
}

// ---------------------------------------------------------------------------
// What a snapshot does to the stored data.

/// Keeps the newest `MAX_HISTORY` points of `s`.
pub open spec fn capped<T>(s: Seq<T>) -> Seq<T> {
    if s.len() > MAX_HISTORY {
        s.subrange(s.len() - MAX_HISTORY, s.len() as int)
    } else {
        s
    }
}

/// Whether a snapshot at `ts` falls within the merge window of one at `prev`.
pub open spec fn within_window(prev: i64, ts: i64) -> bool {
    ts - prev < DEDUP_WINDOW_MS
}

/// Whether the newest point of a game history shows the hours of `p` (equal
/// as doubles) and lies within the merge window of it.
pub open spec fn merges_with(h: Seq<GamePoint>, p: GamePoint) -> bool {
    &&& h.len() > 0
    &&& same_opt_value(h.last().hours_2weeks, p.hours_2weeks)
    &&& same_value(h.last().hours_record, p.hours_record)
    &&& within_window(h.last().ts, p.ts)
}

/// The game history after a snapshot `p`: where the newest point merges with
/// it, that point only takes the new time (keeping its own hours); otherwise
/// `p` is appended and the history is capped.
pub open spec fn record_game_point(h: Seq<GamePoint>, p: GamePoint) -> Seq<GamePoint> {
    if merges_with(h, p) {
        h.update(h.len() - 1, GamePoint { ts: p.ts, ..h.last() })
    } else {
        capped(h.push(p))
    }
}

/// Whether the newest point of a two-week history shows `hours` (equal as
/// doubles) and lies within the merge window of `ts`.
pub open spec fn two_week_merges_with(h: Seq<TwoWeekPoint>, hours: Hours, ts: i64) -> bool {
    &&& h.len() > 0
    &&& same_value(h.last().hours, hours)
    &&& within_window(h.last().ts, ts)
}

/// The two-week history after a snapshot of total `hours` at `ts`: where the
/// newest point merges with it, that point only takes the new time; otherwise
/// a point is appended. Either way the history is then capped.
pub open spec fn record_two_week_point(h: Seq<TwoWeekPoint>, hours: Hours, ts: i64) -> Seq<
    TwoWeekPoint,
> {
    capped(
        if two_week_merges_with(h, hours, ts) {
            h.update(h.len() - 1, TwoWeekPoint { ts, ..h.last() })
        } else {
            h.push(TwoWeekPoint { ts, hours })
        },
    )
}

/// A game as it stands before its first snapshot.
pub open spec fn new_game(g: GameDataView) -> GameView {
    GameView {
        appid: g.appid,
        name: g.name,
        hours_record: Hours { bits: 0 },
        hours_2weeks: None,
        history: Seq::empty(),
    }
}

/// The key of a reported game.
pub open spec fn report_key(g: GameDataView) -> Seq<char> {
    game_key(g.appid, g.name)
}

/// The stored game that a report updates: the one under its key, or a new one.
pub open spec fn game_base(games: Map<Seq<char>, GameView>, g: GameDataView) -> GameView {
    if games.contains_key(report_key(g)) {
        games[report_key(g)]
    } else {
        new_game(g)
    }
}

/// A game after a report of it at `ts`: a nonempty name replaces the stored
/// one, reported hours replace the stored ones, and the snapshot is charted.
pub open spec fn updated_game(base: GameView, g: GameDataView, ts: i64) -> GameView {
    let name = if g.name.len() > 0 {
        g.name
    } else {
        base.name
    };
    let hours_record = match g.hours_record {
        Some(v) => v,
        None => base.hours_record,
    };
    let hours_2weeks = match g.hours_2weeks {
        Some(v) => Some(v),
        None => base.hours_2weeks,
    };
    GameView {
        appid: base.appid,
        name,
        hours_record,
        hours_2weeks,
        history: record_game_point(base.history, GamePoint { ts, hours_2weeks, hours_record }),
    }
}

/// The games of a user after one game of a snapshot at `ts`; a report with an
/// empty key is ignored.
pub open spec fn apply_game(games: Map<Seq<char>, GameView>, g: GameDataView, ts: i64) -> Map<
    Seq<char>,
    GameView,
> {
    if report_key(g).len() == 0 {
        games
    } else {
        games.insert(report_key(g), updated_game(game_base(games, g), g, ts))
    }
}

/// The games of a user after all the games of a snapshot, in order.
pub open spec fn apply_games(games: Map<Seq<char>, GameView>, gs: Seq<GameDataView>, ts: i64) -> Map<
    Seq<char>,
    GameView,
>
    decreases gs.len(),
{
    if gs.len() == 0 {
        games
    } else {
        apply_game(apply_games(games, gs.drop_last(), ts), gs.last(), ts)
    }
}

/// A user as it stands before its first snapshot.
pub open spec fn new_user(key: Seq<char>, url: Seq<char>) -> UserView {
    UserView {
        key,
        url,
        persona: None,
        last_seen: 0,
        two_weeks_total: None,
        two_weeks_history: Seq::empty(),
        games: Map::empty(),
    }
}

/// A user after a snapshot: the URL is replaced, a nonempty persona replaces
/// the old one, the last-seen time only moves forward, a reported two-week
/// total is stored and charted, and each reported game is updated.
pub open spec fn apply_snapshot(
    base: UserView,
    url: Seq<char>,
    persona: Option<Seq<char>>,
    games: Seq<GameDataView>,
    two_weeks_total: Option<Hours>,
    ts: i64,
) -> UserView {
    UserView {
        key: base.key,
        url,
        persona: match persona {
            Some(p) => if p.len() > 0 {
                Some(p)
            } else {
                base.persona
            },
            None => base.persona,
        },
        last_seen: if ts > base.last_seen {
            ts
        } else {
            base.last_seen
        },
        two_weeks_total: match two_weeks_total {
            Some(v) => Some(v),
            None => base.two_weeks_total,
        },
        two_weeks_history: match two_weeks_total {
            Some(v) => record_two_week_point(base.two_weeks_history, v, ts),
            None => base.two_weeks_history,
        },
        games: apply_games(base.games, games, ts),
    }
}

/// The database after a snapshot of the user `key`.
pub open spec fn apply_callback_spec(
    db: Map<Seq<char>, UserView>,
    key: Seq<char>,
    url: Seq<char>,
    persona: Option<Seq<char>>,
    games: Seq<GameDataView>,
    two_weeks_total: Option<Hours>,
    ts: i64,
) -> Map<Seq<char>, UserView> {
    let base = if db.contains_key(key) {
        db[key]
    } else {
        new_user(key, url)
    };
    db.insert(key, apply_snapshot(base, url, persona, games, two_weeks_total, ts))
}

// ---------------------------------------------------------------------------
// Executable updates.

proof fn lemma_games_view_insert(m: Map<Seq<char>, Game>, k: Seq<char>, g: Game)
    ensures
        games_view(m.insert(k, g)) == games_view(m).insert(k, g@),
        games_view(m.remove(k)) == games_view(m).remove(k),
{
    assert(games_view(m.insert(k, g)) =~= games_view(m).insert(k, g@));
    assert(games_view(m.remove(k)) =~= games_view(m).remove(k));
}

proof fn lemma_users_view_insert(m: Map<Seq<char>, User>, k: Seq<char>, u: User)
    ensures
        users_view(m.insert(k, u)) == users_view(m).insert(k, u@),
        users_view(m.remove(k)) == users_view(m).remove(k),
{
    assert(users_view(m.insert(k, u)) =~= users_view(m).insert(k, u@));
    assert(users_view(m.remove(k)) =~= users_view(m).remove(k));
}

fn same_hours(a: Option<Hours>, b: Option<Hours>) -> (r: bool)
    ensures
        r == same_opt_value(a, b),
{
    match (a, b) {
        (Some(x), Some(y)) => x.same(&y),
        (None, None) => true,
        _ => false,
    }
}

fn in_window(prev: i64, ts: i64) -> (r: bool)
    ensures
        r == within_window(prev, ts),
{
    (ts as i128) - (prev as i128) < (DEDUP_WINDOW_MS as i128)
}

/// Adds the snapshot `p` to a game history.
fn record_game_history(history: &mut Vec<GamePoint>, p: GamePoint)
    ensures
        final(history)@ == record_game_point(old(history)@, p),
{
    let n = history.len();
    if n > 0 {
        let last = history[n - 1];
        if same_hours(last.hours_2weeks, p.hours_2weeks) && last.hours_record.same(
            &p.hours_record,
        ) && in_window(last.ts, p.ts) {
            history.set(n - 1, GamePoint { ts: p.ts, ..last });
            return ;
        }
    }
    history.push(p);
    if history.len() > MAX_HISTORY {
        let excess = history.len() - MAX_HISTORY;
        let kept = history.split_off(excess);
        *history = kept;
    }
}

/// Adds a snapshot of the two-week total to a two-week history.
fn record_two_week_history(history: &mut Vec<TwoWeekPoint>, hours: Hours, ts: i64)
    ensures
        final(history)@ == record_two_week_point(old(history)@, hours, ts),
{
    let n = history.len();
    let mut merged = false;
    if n > 0 {
        let last = history[n - 1];
        if last.hours.same(&hours) && in_window(last.ts, ts) {
            history.set(n - 1, TwoWeekPoint { ts, ..last });
            merged = true;
        }
    }
    if !merged {
        history.push(TwoWeekPoint { ts, hours });
    }
    if history.len() > MAX_HISTORY {
        let excess = history.len() - MAX_HISTORY;
        let kept = history.split_off(excess);
        *history = kept;
    }
}

/// Applies one game of a snapshot to the games of a user.
fn update_game(games: &mut KeyedMap<Game>, g: &GameData, ts: i64)
    ensures
        games_view(final(games).as_map()) == apply_game(games_view(old(games).as_map()), g@, ts),
{
    let k = game_key_string(g.appid, &g.name);
    if k.as_str().is_empty() {
        return ;
    }
    let ghost before = games_view(games.as_map());
    let mut game = match games.remove(k.as_str()) {
        Some(x) => x,
        None => Game {
            appid: g.appid,
            name: g.name.clone(),
            hours_record: Hours::zero(),
            hours_2weeks: None,
            history: Vec::new(),
        },
    };
    let ghost base = game@;
    assert(base == (if before.contains_key(k@) { before[k@] } else { new_game(g@) }));
    if !g.name.as_str().is_empty() {
        game.name = g.name.clone();
    }
    match g.hours_record {
        Some(v) => {
            game.hours_record = v;
        },
        None => {},
    }
    match g.hours_2weeks {
        Some(v) => {
            game.hours_2weeks = Some(v);
        },
        None => {},
    }
    let p = GamePoint { ts, hours_2weeks: game.hours_2weeks, hours_record: game.hours_record };
    record_game_history(&mut game.history, p);
    let ghost removed = games.as_map();
    games.insert(k, game);
    proof {
        lemma_games_view_insert(removed, k@, game);
        lemma_games_view_insert(old(games).as_map(), k@, game);
        assert(removed.insert(k@, game) =~= old(games).as_map().insert(k@, game));
    }
}

impl Database {
    /// An empty database.
    pub fn new() -> (db: Database)
        ensures
            db@ == Map::<Seq<char>, UserView>::empty(),
    {
        let db = Database { users: KeyedMap::new() };
        assert(db@ =~= Map::<Seq<char>, UserView>::empty());
        db
    }

    /// Records a snapshot of the user `key`, taken at `ts` (milliseconds):
    /// the user is created where it is new, then updated as `apply_snapshot`
    /// says.
    pub fn apply_callback(
        &mut self,
        key: &str,
        url: &str,
        persona: Option<&str>,
        games: &[GameData],
        two_weeks_total: Option<Hours>,
        ts: i64,
    )
        ensures
            final(self)@ == apply_callback_spec(
                old(self)@,
                key@,
                url@,
                opt_str_view(persona),
                game_data_views(games@),
                two_weeks_total,
                ts,
            ),
    {
        let ghost before = self@;
        let mut user = match self.users.remove(key) {
            Some(u) => u,
            None => User {
                key: String::from_str(key),
                url: String::from_str(url),
                persona: None,
                last_seen: 0,
                two_weeks_total: None,
                two_weeks_history: Vec::new(),
                games: KeyedMap::new(),
            },
        };
        let ghost base = user@;
        proof {
            lemma_users_view_insert(old(self).users.as_map(), key@, user);
            assert(user@.games =~= Map::<Seq<char>, GameView>::empty() || before.contains_key(key@));
            assert(base == (if before.contains_key(key@) { before[key@] } else { new_user(key@, url@) }));
        }
        user.url = String::from_str(url);
        match persona {
            Some(p) => {
                if !p.is_empty() {
                    user.persona = Some(String::from_str(p));
                }
            },
            None => {},
        }
        if ts > user.last_seen {
            user.last_seen = ts;
        }
        match two_weeks_total {
            Some(v) => {
                user.two_weeks_total = Some(v);
                record_two_week_history(&mut user.two_weeks_history, v, ts);
            },
            None => {},
        }
        let ghost gs = game_data_views(games@);
        let ghost pre = user@;
        let mut i: usize = 0;
        while i < games.len()
            invariant
                i <= games@.len(),
                gs == game_data_views(games@),
                games_view(user.games.as_map()) == apply_games(base.games, gs.take(i as int), ts),
                user@.key == pre.key,
                user@.url == pre.url,
                user@.persona == pre.persona,
                user@.last_seen == pre.last_seen,
                user@.two_weeks_total == pre.two_weeks_total,
                user@.two_weeks_history == pre.two_weeks_history,
            decreases games.len() - i,
        {
            proof {
                assert(gs.take(i + 1).drop_last() =~= gs.take(i as int));
                assert(gs.take(i + 1).last() == games@[i as int]@);
            }
            update_game(&mut user.games, &games[i], ts);
            i = i + 1;
        }
        proof {
            assert(gs.take(games@.len() as int) =~= gs);
        }
        let ghost removed = self.users.as_map();
        self.users.insert(String::from_str(key), user);
        proof {
            lemma_users_view_insert(removed, key@, user);
            assert(removed.insert(key@, user) =~= old(self).users.as_map().insert(key@, user));
            lemma_users_view_insert(old(self).users.as_map(), key@, user);
            assert(user@ =~= apply_snapshot(base, url@, opt_str_view(persona), gs, two_weeks_total, ts));
        }
    }
}

} // verus!
