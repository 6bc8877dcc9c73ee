use vstd::prelude::*;

use crate::db::{opt_string_view, Database, Game, GamePoint, TwoWeekPoint, User, UserView};
use crate::keyed_map::KeyedMap;
use crate::listener::{user_key_from_url, url_user_key, CallbackPayload, Event};
use crate::text::{decimal, decimal_string, key_lt, push_all, push_decimal, str_equal};

verus! {

/// The most lines the log keeps; older lines are dropped first.
pub const MAX_LOG_LINES: usize = 300;

/// How far back the graph reaches.
#[derive(Clone, Copy, Debug, PartialEq, Eq, Structural)]
pub enum Timeframe {
    Hours24,
    Days7,
    Days30,
    Days90,
    All,
}

/// The length of a timeframe in seconds; none for all time.
pub open spec fn window_of(t: Timeframe) -> Option<i64> {
    match t {
        Timeframe::Hours24 => Some(86_400i64),
        Timeframe::Days7 => Some(604_800i64),
        Timeframe::Days30 => Some(2_592_000i64),
        Timeframe::Days90 => Some(7_776_000i64),
        Timeframe::All => None,
    }
}

impl Timeframe {
    /// The name shown for the timeframe.
    pub fn label(&self) -> (s: &'static str)
        ensures
            *self == Timeframe::Hours24 ==> s@ == "24 hours"@,
            *self == Timeframe::Days7 ==> s@ == "7 days"@,
            *self == Timeframe::Days30 ==> s@ == "30 days"@,
            *self == Timeframe::Days90 ==> s@ == "90 days"@,
            *self == Timeframe::All ==> s@ == "All time"@,
    {
        match self {
            Timeframe::Hours24 => "24 hours",
            Timeframe::Days7 => "7 days",
            Timeframe::Days30 => "30 days",
            Timeframe::Days90 => "90 days",
            Timeframe::All => "All time",
        }
    }

    /// The length of the timeframe in seconds; none for all time.
    pub fn window_secs(&self) -> (w: Option<i64>)
        ensures
            w == window_of(*self),
    {
        match self {
            Timeframe::Hours24 => Some(24 * 3600),
            Timeframe::Days7 => Some(7 * 86400),
            Timeframe::Days30 => Some(30 * 86400),
            Timeframe::Days90 => Some(90 * 86400),
            Timeframe::All => None,
        }
    }

    /// Every timeframe, in the order the menu lists them.
    pub fn all() -> (a: [Timeframe; 5])
        ensures
            a@ == seq![
                Timeframe::Hours24,
                Timeframe::Days7,
                Timeframe::Days30,
                Timeframe::Days90,
                Timeframe::All,
            ],
    {
        let a = [
            Timeframe::Hours24,
            Timeframe::Days7,
            Timeframe::Days30,
            Timeframe::Days90,
            Timeframe::All,
        ];
        assert(a@ =~= seq![
            Timeframe::Hours24,
            Timeframe::Days7,
            Timeframe::Days30,
            Timeframe::Days90,
            Timeframe::All,
        ]);
        a
    }

    /// The oldest time (milliseconds) the graph shows when it is `now_secs`
    /// seconds past the epoch; none for all time.
    pub fn cutoff_ms(&self, now_secs: i64) -> (c: Option<i64>)
        requires
            window_of(*self) matches Some(w) ==> i64::MIN <= (now_secs - w) * 1000 <= i64::MAX,
        ensures
            c == (match window_of(*self) {
                Some(w) => Some(((now_secs - w) * 1000) as i64),
                None => None,
            }),
    {
        match self.window_secs() {
            Some(w) => Some((now_secs - w) * 1000),
            None => None,
        }
    }
}

/// The time in seconds at which a timestamp is shown: none for one that is
/// not positive; one from `100_000_000_000` up is taken for milliseconds.
pub open spec fn display_seconds(ts: i64) -> Option<i64> {
    if ts <= 0 {
        None
    } else if ts >= 100_000_000_000 {
        Some((ts / 1000) as i64)
    } else {
        Some(ts)
    }
}

/// The time in seconds at which a timestamp is shown, as `display_seconds`.
pub fn timestamp_seconds(ts: i64) -> (s: Option<i64>)
    ensures
        s == display_seconds(ts),
{
    if ts <= 0 {
        None
    } else if ts >= 100_000_000_000 {
        Some(ts / 1000)
    } else {
        Some(ts)
    }
}

/// The text shown for a timestamp, given the local date and time of its
/// `display_seconds` where the calendar could place them: a dash for a
/// timestamp that is not positive, the date where there is one, and the
/// timestamp in decimal otherwise.
pub open spec fn ts_text(ts: i64, local: Option<Seq<char>>) -> Seq<char> {
    if ts <= 0 {
        "\u{2014}"@
    } else {
        match local {
            Some(t) => t,
            None => decimal(ts as nat),
        }
    }
}

/// The text shown for a timestamp, as `ts_text` says.
pub fn fmt_ts(ts: i64, local: Option<String>) -> (s: String)
    ensures
        s@ == ts_text(ts, opt_string_view(local)),
{
    if ts <= 0 {
        return String::from_str("\u{2014}");
    }
    match local {
        Some(t) => t,
        None => decimal_string(ts as u64),
    }
}

/// A timestamp in milliseconds is shown at the same second as its count of
/// whole seconds, and so with the same date text.
pub proof fn lemma_millis_shown_as_seconds(ms: i64, local: Seq<char>)
    requires
        100_000_000_000 <= ms < 100_000_000_000_000,
    ensures
        display_seconds(ms) == Some((ms / 1000) as i64),
        display_seconds((ms / 1000) as i64) == Some((ms / 1000) as i64),
        ts_text(ms, Some(local)) == ts_text((ms / 1000) as i64, Some(local)),
{
}

/// The views of a sequence of strings.
pub open spec fn strings_view(v: Seq<String>) -> Seq<Seq<char>> {
    v.map_values(|s: String| s@)
}

/// A log line: the local clock time in brackets, then the message.
pub open spec fn log_line(now: Seq<char>, msg: Seq<char>) -> Seq<char> {
    "["@ + now + "] "@ + msg
}

/// The newest `MAX_LOG_LINES` lines of a log.
pub open spec fn newest_lines(log: Seq<Seq<char>>) -> Seq<Seq<char>> {
    if log.len() > MAX_LOG_LINES {
        log.subrange(log.len() - MAX_LOG_LINES, log.len() as int)
    } else {
        log
    }
}

/// The log line that reports a snapshot.
pub open spec fn callback_message(p: CallbackPayload) -> Seq<char> {
    if p.disabled {
        "Monitoring toggled off on "@ + p.page@
    } else {
        match url_user_key(p.url@) {
            Some(key) => "Snapshot from "@ + key + (match p.persona {
                Some(name) => " ("@ + name@ + ")"@,
                None => Seq::empty(),
            }) + ": "@ + decimal(p.games@.len()) + " game(s)"@ + (if p.manual {
                " (manual)"@
            } else {
                Seq::empty()
            }),
            None => "Snapshot from non-profile page: "@ + p.url@,
        }
    }
}

/// What the window remembers between frames, apart from the data.
pub struct ViewState {
    pub selected_user: Option<String>,
    pub selected_game: Option<String>,
    pub timeframe: Timeframe,
    pub log: Vec<String>,
    pub connected: bool,
    pub recenter: bool,
    pub last_view_sig: Option<ViewSig>,
}

/// The selection that the graph was last centred for.
pub struct ViewSig {
    pub user: Option<String>,
    pub game: Option<String>,
    pub timeframe: Timeframe,
}

/// Whether `a` and `b` hold the same state but for the log.
pub open spec fn same_but_log(a: ViewState, b: ViewState) -> bool {
    &&& a.selected_user == b.selected_user
    &&& a.selected_game == b.selected_game
    &&& a.timeframe == b.timeframe
    &&& a.connected == b.connected
    &&& a.recenter == b.recenter
    &&& a.last_view_sig == b.last_view_sig
}

impl ViewState {
    /// Adds a line to the log, stamped with the clock time `now`, and drops
    /// the oldest lines beyond `MAX_LOG_LINES`.
    pub fn logf(&mut self, now: &str, msg: &str)
        ensures
            strings_view(final(self).log@) == newest_lines(
                strings_view(old(self).log@).push(log_line(now@, msg@)),
            ),
            same_but_log(*final(self), *old(self)),
    {
        let mut line = String::from_str("[");
        push_all(&mut line, now);
        push_all(&mut line, "] ");
        push_all(&mut line, msg);
        let ghost before = strings_view(self.log@);
        self.log.push(line);
        assert(strings_view(self.log@) =~= before.push(log_line(now@, msg@)));
        if self.log.len() > MAX_LOG_LINES {
            let excess = self.log.len() - MAX_LOG_LINES;
            let ghost full = self.log@;
            let kept = self.log.split_off(excess);
            self.log = kept;
            assert(strings_view(self.log@) =~= newest_lines(strings_view(full)));
        }
    }

    /// Logs a snapshot as `callback_message` words it.
    pub fn log_callback(&mut self, now: &str, p: &CallbackPayload)
        ensures
            strings_view(final(self).log@) == newest_lines(
                strings_view(old(self).log@).push(log_line(now@, callback_message(*p))),
            ),
            same_but_log(*final(self), *old(self)),
    {
        let mut msg = String::new();
        if p.disabled {
            push_all(&mut msg, "Monitoring toggled off on ");
            push_all(&mut msg, p.page.as_str());
        } else {
            match user_key_from_url(p.url.as_str()) {
                Some(key) => {
                    push_all(&mut msg, "Snapshot from ");
                    push_all(&mut msg, key.as_str());
                    match &p.persona {
                        Some(name) => {
                            push_all(&mut msg, " (");
                            push_all(&mut msg, name.as_str());
                            push_all(&mut msg, ")");
                        },
                        None => {},
                    }
                    push_all(&mut msg, ": ");
                    push_decimal(&mut msg, p.games.len() as u64);
                    push_all(&mut msg, " game(s)");
                    if p.manual {
                        push_all(&mut msg, " (manual)");
                    }
                },
                None => {
                    push_all(&mut msg, "Snapshot from non-profile page: ");
                    push_all(&mut msg, p.url.as_str());
                },
            }
        }
        assert(msg@ =~= callback_message(*p));
        self.logf(now, msg.as_str());
    }

    /// Takes one event from the listener, at the clock time `now`: any event
    /// but a log line shows that the browser is connected; a hello from a
    /// profile tab selects that user; snapshots and log lines are logged.
    pub fn handle_event(&mut self, now: &str, ev: Event)
        ensures
            match ev {
                Event::Hello(url) => {
                    &&& final(self).connected
                    &&& match url_user_key(url@) {
                        Some(key) => {
                            &&& final(self).selected_user matches Some(s) && s@ == key
                            &&& strings_view(final(self).log@) == newest_lines(
                                strings_view(old(self).log@).push(
                                    log_line(now@, "Browser tab active: "@ + key),
                                ),
                            )
                        },
                        None => final(self).selected_user == old(self).selected_user
                            && final(self).log == old(self).log,
                    }
                    &&& final(self).selected_game == old(self).selected_game
                    &&& final(self).timeframe == old(self).timeframe
                    &&& final(self).recenter == old(self).recenter
                    &&& final(self).last_view_sig == old(self).last_view_sig
                },
                Event::Callback(p) => {
                    &&& final(self).connected
                    &&& strings_view(final(self).log@) == newest_lines(
                        strings_view(old(self).log@).push(log_line(now@, callback_message(p))),
                    )
                    &&& final(self).selected_user == old(self).selected_user
                    &&& final(self).selected_game == old(self).selected_game
                    &&& final(self).timeframe == old(self).timeframe
                    &&& final(self).recenter == old(self).recenter
                    &&& final(self).last_view_sig == old(self).last_view_sig
                },
                Event::Log(msg) => {
                    &&& strings_view(final(self).log@) == newest_lines(
                        strings_view(old(self).log@).push(log_line(now@, msg@)),
                    )
                    &&& same_but_log(*final(self), *old(self))
                },
            },
    {
        match ev {
            Event::Hello(url) => {
                self.connected = true;
                match user_key_from_url(url.as_str()) {
                    Some(key) => {
                        let mut msg = String::from_str("Browser tab active: ");
                        push_all(&mut msg, key.as_str());
                        self.logf(now, msg.as_str());
                        self.selected_user = Some(key);
                    },
                    None => {},
                }
            },
            Event::Callback(p) => {
                self.connected = true;
                self.log_callback(now, &p);
            },
            Event::Log(msg) => {
                self.logf(now, msg.as_str());
            },
        }
    }
}

/// Whether the user `k` is the one most recently seen; of several seen at the
/// same time, the one with the greatest key.
pub open spec fn is_most_recent(db: Map<Seq<char>, UserView>, k: Seq<char>) -> bool {
    &&& db.contains_key(k)
    &&& forall|k2: Seq<char>| #[trigger]
        db.contains_key(k2) ==> db[k2].last_seen < db[k].last_seen || (db[k2].last_seen
            == db[k].last_seen && (k2 == k || key_lt(k2, k)))
}

proof fn lemma_users_at(users: KeyedMap<User>, i: int)
    requires
        users.ordered(),
        0 <= i < users.key_seq().len(),
    ensures
        crate::db::users_view(users.as_map()).contains_key(users.key_seq()[i]),
        crate::db::users_view(users.as_map())[users.key_seq()[i]] == users.value_seq()[i]@,
{
    users.lemma_keys();
}

/// The key field of the user seen most recently (see `is_most_recent`); none
/// where there is no user.
pub fn most_recent_user(db: &Database) -> (r: Option<String>)
    ensures
        r is None <==> db@ == Map::<Seq<char>, UserView>::empty(),
        r matches Some(s) ==> exists|k: Seq<char>| is_most_recent(db@, k) && s@ == db@[k].key,
{
    let n = db.users.len();
    proof {
        db.users.lemma_keys();
    }
    if n == 0 {
        assert(db@ =~= Map::<Seq<char>, UserView>::empty());
        return None;
    }
    let ghost ks = db.users.key_seq();
    let mut best: usize = 0;
    let mut best_seen: i64 = db.users.entry_at(0).1.last_seen;
    proof {
        lemma_users_at(db.users, 0);
    }
    let mut i: usize = 1;
    while i < n
        invariant
            n == ks.len(),
            ks == db.users.key_seq(),
            db.users.ordered(),
            1 <= i <= n,
            best < i,
            best_seen == db@[ks[best as int]].last_seen,
            forall|j: int|
                0 <= j < i ==> db@[#[trigger] ks[j]].last_seen < best_seen || (db@[ks[j]].last_seen
                    == best_seen && j <= best),
        decreases n - i,
    {
        let seen = db.users.entry_at(i).1.last_seen;
        proof {
            lemma_users_at(db.users, i as int);
        }
        if seen >= best_seen {
            best = i;
            best_seen = seen;
        }
        i = i + 1;
    }
    let (_, user) = db.users.entry_at(best);
    proof {
        lemma_users_at(db.users, best as int);
        let k = ks[best as int];
        assert forall|k2: Seq<char>| #[trigger] db@.contains_key(k2) implies db@[k2].last_seen
            < db@[k].last_seen || (db@[k2].last_seen == db@[k].last_seen && (k2 == k || key_lt(
            k2,
            k,
        ))) by {
            assert(ks.contains(k2));
            let j = choose|j: int| 0 <= j < ks.len() && ks[j] == k2;
            assert(db@[ks[j]].last_seen < best_seen || (db@[ks[j]].last_seen == best_seen && j
                <= best));
            if j < best {
                assert(key_lt(ks[j], ks[best as int]));
            }
        }
        assert(is_most_recent(db@, k));
    }
    Some(user.key.clone())
}

/// Whether user `a` is listed before user `b`: more recently seen first, and
/// of users seen at the same time, the smaller key first.
pub open spec fn listed_before(db: Map<Seq<char>, UserView>, a: Seq<char>, b: Seq<char>) -> bool {
    db[a].last_seen > db[b].last_seen || (db[a].last_seen == db[b].last_seen && key_lt(a, b))
}

/// How a user is named in the menu: `persona (key)`, or the key alone where
/// there is no persona or it is empty.
pub open spec fn user_label(key: Seq<char>, persona: Option<Seq<char>>) -> Seq<char> {
    match persona {
        Some(p) => if p.len() > 0 {
            p + " ("@ + key + ")"@
        } else {
            key
        },
        None => key,
    }
}

/// Whether `r` lists every user of `db` once, as a pair of key and label,
/// in the order of `listed_before`.
pub open spec fn is_user_listing(db: Map<Seq<char>, UserView>, r: Seq<(String, String)>) -> bool {
    &&& forall|t: int|
        0 <= t < r.len() ==> db.contains_key(#[trigger] r[t].0@) && r[t].1@ == user_label(
            r[t].0@,
            db[r[t].0@].persona,
        )
    &&& forall|k: Seq<char>| #[trigger]
        db.contains_key(k) ==> exists|t: int| 0 <= t < r.len() && r[t].0@ == k
    &&& forall|t: int, u: int|
        0 <= t < u < r.len() ==> listed_before(db, #[trigger] r[t].0@, #[trigger] r[u].0@)
}

fn label_for(key: &String, user: &User) -> (s: String)
    ensures
        s@ == user_label(key@, user@.persona),
{
    match &user.persona {
        Some(p) => {
            if !p.as_str().is_empty() {
                let mut s = p.clone();
                push_all(&mut s, " (");
                push_all(&mut s, key.as_str());
                push_all(&mut s, ")");
                s
            } else {
                key.clone()
            }
        },
        None => key.clone(),
    }
}

#[verifier::opaque]
spec fn listing_seen(db: Map<Seq<char>, UserView>, res: Seq<(String, String)>, seen: Seq<i64>) -> bool {
    &&& res.len() == seen.len()
    &&& forall|t: int| 0 <= t < res.len() ==> #[trigger] seen[t] == db[res[t].0@].last_seen
}

#[verifier::opaque]
spec fn listing_from(ks: Seq<Seq<char>>, res: Seq<(String, String)>, i: int) -> bool {
    forall|t: int| 0 <= t < res.len() ==> exists|j: int| 0 <= j < i && #[trigger] res[t].0@ == ks[j]
}

#[verifier::opaque]
spec fn listing_labels(db: Map<Seq<char>, UserView>, res: Seq<(String, String)>) -> bool {
    forall|t: int|
        0 <= t < res.len() ==> db.contains_key(#[trigger] res[t].0@) && res[t].1@ == user_label(
            res[t].0@,
            db[res[t].0@].persona,
        )
}

#[verifier::opaque]
spec fn listing_covers(ks: Seq<Seq<char>>, res: Seq<(String, String)>, i: int) -> bool {
    forall|j: int| 0 <= j < i ==> exists|t: int| 0 <= t < res.len() && res[t].0@ == #[trigger] ks[j]
}

#[verifier::opaque]
spec fn listing_sorted(db: Map<Seq<char>, UserView>, res: Seq<(String, String)>) -> bool {
    forall|t: int, u: int|
        0 <= t < u < res.len() ==> listed_before(db, #[trigger] res[t].0@, #[trigger] res[u].0@)
}

/// The users `ks[..i]` listed in order, with the times they were last seen.
spec fn partial_listing(
    db: Map<Seq<char>, UserView>,
    ks: Seq<Seq<char>>,
    res: Seq<(String, String)>,
    seen: Seq<i64>,
    i: int,
) -> bool {
    &&& res.len() == i
    &&& listing_seen(db, res, seen)
    &&& listing_from(ks, res, i)
    &&& listing_labels(db, res)
    &&& listing_covers(ks, res, i)
    &&& listing_sorted(db, res)
}

proof fn lemma_insert_seen(
    db: Map<Seq<char>, UserView>,
    res: Seq<(String, String)>,
    seen: Seq<i64>,
    pos: int,
    entry: (String, String),
)
    requires
        listing_seen(db, res, seen),
        0 <= pos <= res.len(),
    ensures
        listing_seen(db, res.insert(pos, entry), seen.insert(pos, db[entry.0@].last_seen)),
{
    reveal(listing_seen);
    let nres = res.insert(pos, entry);
    let nseen = seen.insert(pos, db[entry.0@].last_seen);
    assert forall|t: int| 0 <= t < nres.len() implies #[trigger] nseen[t] == db[nres[t].0@].last_seen by {
        if t < pos {
            assert(nres[t] == res[t]);
        } else if t > pos {
            assert(nres[t] == res[t - 1]);
        }
    }
}

proof fn lemma_insert_from_labels(
    db: Map<Seq<char>, UserView>,
    ks: Seq<Seq<char>>,
    res: Seq<(String, String)>,
    i: int,
    pos: int,
    entry: (String, String),
)
    requires
        listing_from(ks, res, i),
        listing_labels(db, res),
        0 <= pos <= res.len(),
        0 <= i < ks.len(),
        entry.0@ == ks[i],
        db.contains_key(ks[i]),
        entry.1@ == user_label(ks[i], db[ks[i]].persona),
    ensures
        listing_from(ks, res.insert(pos, entry), i + 1),
        listing_labels(db, res.insert(pos, entry)),
{
    reveal(listing_from);
    reveal(listing_labels);
    let nres = res.insert(pos, entry);
    assert forall|t: int| 0 <= t < nres.len() implies exists|j: int|
        0 <= j < i + 1 && #[trigger] nres[t].0@ == ks[j] by {
        if t < pos {
            assert(nres[t] == res[t]);
        } else if t > pos {
            assert(nres[t] == res[t - 1]);
        } else {
            assert(nres[t].0@ == ks[i]);
        }
    }
    assert forall|t: int| 0 <= t < nres.len() implies db.contains_key(#[trigger] nres[t].0@) && nres[t].1@
        == user_label(nres[t].0@, db[nres[t].0@].persona) by {
        if t < pos {
            assert(nres[t] == res[t]);
        } else if t > pos {
            assert(nres[t] == res[t - 1]);
        }
    }
}

proof fn lemma_insert_covers(
    ks: Seq<Seq<char>>,
    res: Seq<(String, String)>,
    i: int,
    pos: int,
    entry: (String, String),
)
    requires
        listing_covers(ks, res, i),
        0 <= pos <= res.len(),
        0 <= i < ks.len(),
        entry.0@ == ks[i],
    ensures
        listing_covers(ks, res.insert(pos, entry), i + 1),
{
    reveal(listing_covers);
    let nres = res.insert(pos, entry);
    assert forall|j: int| 0 <= j < i + 1 implies exists|t: int|
        0 <= t < nres.len() && nres[t].0@ == #[trigger] ks[j] by {
        if j < i {
            let t = choose|t: int| 0 <= t < res.len() && res[t].0@ == ks[j];
            if t < pos {
                assert(nres[t] == res[t]);
            } else {
                assert(nres[t + 1] == res[t]);
            }
        } else {
            assert(nres[pos].0@ == ks[j]);
        }
    }
}

proof fn lemma_insert_sorted(
    db: Map<Seq<char>, UserView>,
    ks: Seq<Seq<char>>,
    res: Seq<(String, String)>,
    seen: Seq<i64>,
    i: int,
    pos: int,
    entry: (String, String),
)
    requires
        0 <= i < ks.len(),
        forall|a: int, b: int| 0 <= a < b < ks.len() ==> key_lt(#[trigger] ks[a], #[trigger] ks[b]),
        listing_seen(db, res, seen),
        listing_from(ks, res, i),
        listing_sorted(db, res),
        0 <= pos <= res.len(),
        forall|t: int| 0 <= t < pos ==> seen[t] >= db[ks[i]].last_seen,
        pos < res.len() ==> seen[pos] < db[ks[i]].last_seen,
        entry.0@ == ks[i],
    ensures
        listing_sorted(db, res.insert(pos, entry)),
{
    reveal(listing_seen);
    reveal(listing_from);
    reveal(listing_sorted);
    let ls = db[ks[i]].last_seen;
    let nres = res.insert(pos, entry);
    assert forall|t: int, u: int| 0 <= t < u < nres.len() implies listed_before(
        db,
        #[trigger] nres[t].0@,
        #[trigger] nres[u].0@,
    ) by {
        if t == pos {
            assert(nres[u] == res[u - 1]);
            if u - 1 > pos {
                assert(listed_before(db, res[pos].0@, res[u - 1].0@));
            }
            assert(seen[u - 1] < ls);
        } else if u == pos {
            assert(nres[t] == res[t]);
            assert(seen[t] >= ls);
            let j = choose|j: int| 0 <= j < i && res[t].0@ == ks[j];
            assert(key_lt(ks[j], ks[i]));
        } else {
            let ot = if t < pos { t } else { t - 1 };
            let ou = if u < pos { u } else { u - 1 };
            assert(nres[t] == res[ot]);
            assert(nres[u] == res[ou]);
        }
    }
}

/// Every user, named and ordered as `is_user_listing` says.
pub fn user_choices(db: &Database) -> (r: Vec<(String, String)>)
    ensures
        is_user_listing(db@, r@),
{
    let n = db.users.len();
    let ghost ks = db.users.key_seq();
    proof {
        db.users.lemma_keys();
        assert forall|j: int| 0 <= j < ks.len() implies db@.contains_key(#[trigger] ks[j]) by {
            lemma_users_at(db.users, j);
        }
    }
    let mut res: Vec<(String, String)> = Vec::new();
    let mut seen: Vec<i64> = Vec::new();
    let mut i: usize = 0;
    proof {
        reveal(listing_seen);
        reveal(listing_from);
        reveal(listing_labels);
        reveal(listing_covers);
        reveal(listing_sorted);
    }
    while i < n
        invariant
            n == ks.len(),
            ks == db.users.key_seq(),
            db.users.ordered(),
            i <= n,
            forall|j: int| 0 <= j < ks.len() ==> db@.contains_key(#[trigger] ks[j]),
            partial_listing(db@, ks, res@, seen@, i as int),
        decreases n - i,
    {
        let (key, user) = db.users.entry_at(i);
        proof {
            lemma_users_at(db.users, i as int);
        }
        let ls = user.last_seen;
        assert(seen@.len() == i) by {
            reveal(listing_seen);
        }
        let mut pos: usize = 0;
        while pos < i && seen[pos] >= ls
            invariant
                pos <= i,
                seen@.len() == i,
                forall|t: int| 0 <= t < pos ==> seen@[t] >= ls,
            decreases i - pos,
        {
            pos = pos + 1;
        }
        let label = label_for(key, user);
        let entry = (key.clone(), label);
        assert(pos < i ==> seen@[pos as int] < ls);
        assert(ls == db@[ks[i as int]].last_seen);
        proof {
            lemma_insert_seen(db@, res@, seen@, pos as int, entry);
            lemma_insert_from_labels(db@, ks, res@, i as int, pos as int, entry);
            lemma_insert_covers(ks, res@, i as int, pos as int, entry);
            lemma_insert_sorted(db@, ks, res@, seen@, i as int, pos as int, entry);
        }
        res.insert(pos, entry);
        seen.insert(pos, ls);
        i = i + 1;
    }
    proof {
        reveal(listing_labels);
        reveal(listing_covers);
        reveal(listing_sorted);
        assert forall|k: Seq<char>| #[trigger] db@.contains_key(k) implies exists|t: int|
            0 <= t < res@.len() && res@[t].0@ == k by {
            assert(ks.contains(k));
            let j = choose|j: int| 0 <= j < ks.len() && ks[j] == k;
            assert(exists|t: int| 0 <= t < n && res@[t].0@ == #[trigger] ks[j]);
        }
    }
    res
}

/// The user selected after a frame begins: the first listed user where none
/// was selected, and none where the selected user is unknown.
pub open spec fn synced_user(
    db: Map<Seq<char>, UserView>,
    selected: Option<Seq<char>>,
    first: Option<Seq<char>>,
) -> Option<Seq<char>> {
    let chosen = match selected {
        None => first,
        Some(k) => Some(k),
    };
    match chosen {
        Some(k) => if db.contains_key(k) {
            Some(k)
        } else {
            None
        },
        None => None,
    }
}

/// The game selected after a frame begins: kept only where the selected user
/// has it.
pub open spec fn synced_game(
    db: Map<Seq<char>, UserView>,
    user: Option<Seq<char>>,
    game: Option<Seq<char>>,
) -> Option<Seq<char>> {
    match (game, user) {
        (Some(g), Some(u)) => if db.contains_key(u) && db[u].games.contains_key(g) {
            Some(g)
        } else {
            None
        },
        _ => None,
    }
}

/// A selection as plain values.
pub open spec fn sig_view(s: ViewSig) -> (Option<Seq<char>>, Option<Seq<char>>, Timeframe) {
    (opt_string_view(s.user), opt_string_view(s.game), s.timeframe)
}

pub open spec fn opt_sig_view(s: Option<ViewSig>) -> Option<(Option<Seq<char>>, Option<Seq<char>>, Timeframe)> {
    match s {
        Some(x) => Some(sig_view(x)),
        None => None,
    }
}

fn clone_opt_string(s: &Option<String>) -> (r: Option<String>)
    ensures
        opt_string_view(r) == opt_string_view(*s),
{
    match s {
        Some(t) => Some(t.clone()),
        None => None,
    }
}

fn opt_str_equal(a: &Option<String>, b: &Option<String>) -> (r: bool)
    ensures
        r == (opt_string_view(*a) == opt_string_view(*b)),
{
    match (a, b) {
        (Some(x), Some(y)) => str_equal(x.as_str(), y.as_str()),
        (None, None) => true,
        _ => false,
    }
}

impl ViewState {
    /// The state of a new window: the user seen most recently is selected,
    /// with all games over all time.
    pub fn new(db: &Database) -> (s: ViewState)
        ensures
            s.selected_user is None <==> db@ == Map::<Seq<char>, UserView>::empty(),
            s.selected_user matches Some(u) ==> exists|k: Seq<char>|
                is_most_recent(db@, k) && u@ == db@[k].key,
            s.selected_game is None,
            s.timeframe == Timeframe::All,
            s.log@.len() == 0,
            !s.connected,
            s.recenter,
            s.last_view_sig is None,
    {
        ViewState {
            selected_user: most_recent_user(db),
            selected_game: None,
            timeframe: Timeframe::All,
            log: Vec::new(),
            connected: false,
            recenter: true,
            last_view_sig: None,
        }
    }

    /// Brings the selection in line with the data at the start of a frame,
    /// and hands back the user menu (see `user_choices`). The graph is to be
    /// recentred whenever the selection differs from the one it was last
    /// centred for.
    pub fn sync(&mut self, db: &Database) -> (users: Vec<(String, String)>)
        ensures
            is_user_listing(db@, users@),
            opt_string_view(final(self).selected_user) == synced_user(
                db@,
                opt_string_view(old(self).selected_user),
                if users@.len() > 0 {
                    Some(users@[0].0@)
                } else {
                    None
                },
            ),
            opt_string_view(final(self).selected_game) == synced_game(
                db@,
                opt_string_view(final(self).selected_user),
                opt_string_view(old(self).selected_game),
            ),
            ({
                let sig = (
                    opt_string_view(final(self).selected_user),
                    opt_string_view(final(self).selected_game),
                    old(self).timeframe,
                );
                if opt_sig_view(old(self).last_view_sig) != Some(sig) {
                    final(self).recenter && opt_sig_view(final(self).last_view_sig) == Some(sig)
                } else {
                    final(self).recenter == old(self).recenter && final(self).last_view_sig
                        == old(self).last_view_sig
                }
            }),
            final(self).timeframe == old(self).timeframe,
            final(self).log == old(self).log,
            final(self).connected == old(self).connected,
    {
        let users = user_choices(db);
        if self.selected_user.is_none() && users.len() > 0 {
            self.selected_user = Some(users[0].0.clone());
        }
        let known = match &self.selected_user {
            Some(k) => db.users.contains_key(k.as_str()),
            None => true,
        };
        if !known {
            self.selected_user = None;
        }
        let game_valid = match (&self.selected_game, &self.selected_user) {
            (Some(g), Some(u)) => match db.users.get(u.as_str()) {
                Some(user) => user.games.contains_key(g.as_str()),
                None => false,
            },
            (None, _) => true,
            _ => false,
        };
        if !game_valid {
            self.selected_game = None;
        }
        let same = match &self.last_view_sig {
            Some(sig) => opt_str_equal(&sig.user, &self.selected_user) && opt_str_equal(
                &sig.game,
                &self.selected_game,
            ) && sig.timeframe == self.timeframe,
            None => false,
        };
        if !same {
            self.recenter = true;
            self.last_view_sig = Some(
                ViewSig {
                    user: clone_opt_string(&self.selected_user),
                    game: clone_opt_string(&self.selected_game),
                    timeframe: self.timeframe,
                },
            );
        }
        users
    }
}

/// The log never holds more than `MAX_LOG_LINES` lines, and a line just
/// logged is always its newest.
pub proof fn lemma_log_bounded(log: Seq<Seq<char>>, line: Seq<char>)
    ensures
        newest_lines(log).len() <= MAX_LOG_LINES,
        newest_lines(log.push(line)).last() == line,
        log.len() < MAX_LOG_LINES ==> newest_lines(log.push(line)) == log.push(line),
{
}

/// After a frame begins, the selected user is a known user (or none), and
/// the selected game is one of that user's games (or none).
pub proof fn lemma_selection_is_known(
    db: Map<Seq<char>, UserView>,
    selected: Option<Seq<char>>,
    first: Option<Seq<char>>,
    game: Option<Seq<char>>,
)
    ensures
        synced_user(db, selected, first) matches Some(u) ==> db.contains_key(u),
        synced_game(db, synced_user(db, selected, first), game) matches Some(g) ==> {
            &&& synced_user(db, selected, first) matches Some(u)
            &&& db.contains_key(u)
            &&& db[u].games.contains_key(g)
        },
{
}

// ---------------------------------------------------------------------------
// The points the graph shows.

/// Whether a point taken at `ts` lies within the timeframe that starts at
/// `cutoff` (milliseconds); every point does where there is no cutoff.
pub open spec fn after_cutoff(ts: i64, cutoff: Option<i64>) -> bool {
    match cutoff {
        Some(c) => ts >= c,
        None => true,
    }
}

/// The points of a game history within the timeframe, in order.
pub open spec fn kept_points(h: Seq<GamePoint>, cutoff: Option<i64>) -> Seq<GamePoint>
    decreases h.len(),
{
    if h.len() == 0 {
        Seq::empty()
    } else if after_cutoff(h.last().ts, cutoff) {
        kept_points(h.drop_last(), cutoff).push(h.last())
    } else {
        kept_points(h.drop_last(), cutoff)
    }
}

/// The points of a two-week history within the timeframe, in order.
pub open spec fn kept_two_week(h: Seq<TwoWeekPoint>, cutoff: Option<i64>) -> Seq<TwoWeekPoint>
    decreases h.len(),
{
    if h.len() == 0 {
        Seq::empty()
    } else if after_cutoff(h.last().ts, cutoff) {
        kept_two_week(h.drop_last(), cutoff).push(h.last())
    } else {
        kept_two_week(h.drop_last(), cutoff)
    }
}

/// The points within the timeframe of all the games, game after game.
pub open spec fn all_kept_points(games: Seq<Game>, cutoff: Option<i64>) -> Seq<GamePoint>
    decreases games.len(),
{
    if games.len() == 0 {
        Seq::empty()
    } else {
        all_kept_points(games.drop_last(), cutoff) + kept_points(games.last().history@, cutoff)
    }
}

/// The points of `pts` taken at `t`, in order.
pub open spec fn points_at(pts: Seq<GamePoint>, t: i64) -> Seq<GamePoint>
    decreases pts.len(),
{
    if pts.len() == 0 {
        Seq::empty()
    } else if pts.last().ts == t {
        points_at(pts.drop_last(), t).push(pts.last())
    } else {
        points_at(pts.drop_last(), t)
    }
}

/// Whether `groups` holds the points of `pts` by time: one group for each
/// time at which a point was taken, in ascending time, each holding the
/// points taken then in their order in `pts`.
pub open spec fn is_grouping(pts: Seq<GamePoint>, groups: Seq<(i64, Vec<GamePoint>)>) -> bool {
    &&& forall|a: int, b: int|
        0 <= a < b < groups.len() ==> #[trigger] groups[a].0 < #[trigger] groups[b].0
    &&& forall|a: int|
        0 <= a < groups.len() ==> (#[trigger] groups[a]).1@ == points_at(pts, groups[a].0)
            && groups[a].1@.len() > 0
    &&& forall|i: int|
        0 <= i < pts.len() ==> exists|a: int| 0 <= a < groups.len() && groups[a].0 == #[trigger] pts[i].ts
}

/// The points of a game history within the timeframe, as `kept_points` says.
pub fn game_points_since(history: &Vec<GamePoint>, cutoff: Option<i64>) -> (r: Vec<GamePoint>)
    ensures
        r@ == kept_points(history@, cutoff),
{
    let mut r: Vec<GamePoint> = Vec::new();
    let mut j: usize = 0;
    while j < history.len()
        invariant
            j <= history@.len(),
            r@ == kept_points(history@.take(j as int), cutoff),
        decreases history.len() - j,
    {
        let p = history[j];
        assert(history@.take(j + 1).drop_last() =~= history@.take(j as int));
        let keep = match cutoff {
            Some(c) => p.ts >= c,
            None => true,
        };
        if keep {
            r.push(p);
        }
        j = j + 1;
    }
    assert(history@.take(history@.len() as int) =~= history@);
    r
}

/// The points of a two-week history within the timeframe, as
/// `kept_two_week` says.
pub fn two_week_points_since(history: &Vec<TwoWeekPoint>, cutoff: Option<i64>) -> (r: Vec<
    TwoWeekPoint,
>)
    ensures
        r@ == kept_two_week(history@, cutoff),
{
    let mut r: Vec<TwoWeekPoint> = Vec::new();
    let mut j: usize = 0;
    while j < history.len()
        invariant
            j <= history@.len(),
            r@ == kept_two_week(history@.take(j as int), cutoff),
        decreases history.len() - j,
    {
        let p = history[j];
        assert(history@.take(j + 1).drop_last() =~= history@.take(j as int));
        let keep = match cutoff {
            Some(c) => p.ts >= c,
            None => true,
        };
        if keep {
            r.push(p);
        }
        j = j + 1;
    }
    assert(history@.take(history@.len() as int) =~= history@);
    r
}

proof fn lemma_points_at_absent(pts: Seq<GamePoint>, t: i64)
    requires
        forall|i: int| 0 <= i < pts.len() ==> #[trigger] pts[i].ts != t,
    ensures
        points_at(pts, t) == Seq::<GamePoint>::empty(),
    decreases pts.len(),
{
    if pts.len() > 0 {
        assert forall|i: int| 0 <= i < pts.drop_last().len() implies #[trigger] pts.drop_last()[i].ts != t by {
            assert(pts.drop_last()[i] == pts[i]);
        }
        lemma_points_at_absent(pts.drop_last(), t);
    }
}

/// Adds the point `p` to a grouping of `pts`.
fn add_point(groups: &mut Vec<(i64, Vec<GamePoint>)>, p: GamePoint, Ghost(pts): Ghost<Seq<GamePoint>>)
    requires
        is_grouping(pts, old(groups)@),
    ensures
        is_grouping(pts.push(p), final(groups)@),
{
    let ghost npts = pts.push(p);
    assert(npts.drop_last() =~= pts);
    let mut pos: usize = 0;
    while pos < groups.len() && groups[pos].0 < p.ts
        invariant
            pos <= groups@.len(),
            groups@ == old(groups)@,
            forall|a: int| 0 <= a < pos ==> #[trigger] groups@[a].0 < p.ts,
        decreases groups.len() - pos,
    {
        pos = pos + 1;
    }
    let ghost og = groups@;
    if pos < groups.len() && groups[pos].0 == p.ts {
        let (t, mut v) = groups.remove(pos);
        v.push(p);
        groups.insert(pos, (t, v));
        assert(groups@ =~= og.update(pos as int, (t, v)));
        assert forall|a: int| 0 <= a < groups@.len() implies (#[trigger] groups@[a]).1@ == points_at(npts, groups@[a].0)
            && groups@[a].1@.len() > 0 by {
            if a != pos {
                assert(groups@[a] == og[a]);
            }
        }
        assert forall|i: int| 0 <= i < npts.len() implies exists|a: int| 0 <= a < groups@.len() && groups@[a].0 == #[trigger] npts[i].ts by {
            if i < pts.len() {
                assert(npts[i] == pts[i]);
                let a = choose|a: int| 0 <= a < og.len() && og[a].0 == pts[i].ts;
                assert(groups@[a].0 == og[a].0);
            } else {
                assert(groups@[pos as int].0 == p.ts);
            }
        }
    } else {
        proof {
            assert forall|i: int| 0 <= i < pts.len() implies #[trigger] pts[i].ts != p.ts by {
                if pts[i].ts == p.ts {
                    let a = choose|a: int| 0 <= a < og.len() && og[a].0 == pts[i].ts;
                    if a < pos {
                    } else if a > pos {
                        assert(og[pos as int].0 < og[a].0);
                    }
                }
            }
            lemma_points_at_absent(pts, p.ts);
        }
        let mut v: Vec<GamePoint> = Vec::new();
        v.push(p);
        groups.insert(pos, (p.ts, v));
        assert(points_at(npts, p.ts) =~= seq![p]);
        assert forall|a: int, b: int| 0 <= a < b < groups@.len() implies #[trigger] groups@[a].0 < #[trigger] groups@[b].0 by {
            let oa = if a < pos { a } else { a - 1 };
            let ob = if b < pos { b } else { b - 1 };
            if a != pos && b != pos {
                assert(groups@[a] == og[oa]);
                assert(groups@[b] == og[ob]);
            } else if a == pos {
                assert(groups@[b] == og[ob]);
                if ob > pos {
                    assert(og[pos as int].0 < og[ob].0);
                }
            } else {
                assert(groups@[a] == og[oa]);
            }
        }
        assert forall|a: int| 0 <= a < groups@.len() implies (#[trigger] groups@[a]).1@ == points_at(npts, groups@[a].0)
            && groups@[a].1@.len() > 0 by {
            if a < pos {
                assert(groups@[a] == og[a]);
            } else if a > pos {
                assert(groups@[a] == og[a - 1]);
            }
        }
        assert forall|i: int| 0 <= i < npts.len() implies exists|a: int| 0 <= a < groups@.len() && groups@[a].0 == #[trigger] npts[i].ts by {
            if i < pts.len() {
                assert(npts[i] == pts[i]);
                let a = choose|a: int| 0 <= a < og.len() && og[a].0 == pts[i].ts;
                if a < pos {
                    assert(groups@[a] == og[a]);
                } else {
                    assert(groups@[a + 1] == og[a]);
                }
            } else {
                assert(groups@[pos as int].0 == p.ts);
            }
        }
    }
}

/// The points within the timeframe of all the user's games (game after game
/// in key order, each in its history's order), grouped by the time they were
/// taken, as `is_grouping` says.
pub fn points_by_time(user: &User, cutoff: Option<i64>) -> (groups: Vec<(i64, Vec<GamePoint>)>)
    ensures
        is_grouping(all_kept_points(user.games.value_seq(), cutoff), groups@),
{
    let n = user.games.len();
    let ghost games = user.games.value_seq();
    proof {
        user.games.lemma_keys();
    }
    let mut groups: Vec<(i64, Vec<GamePoint>)> = Vec::new();
    let mut i: usize = 0;
    while i < n
        invariant
            i <= n,
            n == games.len(),
            n == user.games.key_seq().len(),
            games == user.games.value_seq(),
            is_grouping(all_kept_points(games.take(i as int), cutoff), groups@),
        decreases n - i,
    {
        let (_, game) = user.games.entry_at(i);
        let ghost before = all_kept_points(games.take(i as int), cutoff);
        let mut j: usize = 0;
        while j < game.history.len()
            invariant
                j <= game.history@.len(),
                is_grouping(before + kept_points(game.history@.take(j as int), cutoff), groups@),
            decreases game.history.len() - j,
        {
            let p = game.history[j];
            assert(game.history@.take(j + 1).drop_last() =~= game.history@.take(j as int));
            let keep = match cutoff {
                Some(c) => p.ts >= c,
                None => true,
            };
            if keep {
                let ghost pts = before + kept_points(game.history@.take(j as int), cutoff);
                add_point(&mut groups, p, Ghost(pts));
                assert(pts.push(p) =~= before + kept_points(game.history@.take(j + 1), cutoff));
            } else {
                assert(kept_points(game.history@.take(j + 1), cutoff) == kept_points(game.history@.take(j as int), cutoff));
            }
            j = j + 1;
        }
        proof {
            assert(game.history@.take(game.history@.len() as int) =~= game.history@);
            assert(games.take(i + 1).drop_last() =~= games.take(i as int));
            assert(games.take(i + 1).last() == *game);
        }
        i = i + 1;
    }
    proof {
        assert(games.take(n as int) =~= games);
    }
    groups
}

} // verus!
