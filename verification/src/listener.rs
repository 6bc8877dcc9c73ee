use vstd::prelude::*;

use crate::db::{
    apply_callback_spec, game_data_views, opt_string_view, Database, GameData, GameDataView, Hours,
    UserView,
};
use crate::text::{chars_of, str_equal, string_from_chars};

verus! {

/// Whether `p` occurs in `s` starting at index `i`.
pub open spec fn occurs_at(s: Seq<char>, p: Seq<char>, i: int) -> bool {
    0 <= i && i + p.len() <= s.len() && s.subrange(i, i + p.len()) == p
}

/// The first index at or after `i` where `p` occurs in `s`.
pub open spec fn find_from(s: Seq<char>, p: Seq<char>, i: int) -> Option<int>
    decreases s.len() + 1 - i,
{
    if i < 0 || i + p.len() > s.len() {
        None
    } else if occurs_at(s, p, i) {
        Some(i)
    } else {
        find_from(s, p, i + 1)
    }
}

/// Whether `c` ends the profile segment of a URL.
pub open spec fn is_segment_end(c: char) -> bool {
    c == '/' || c == '?' || c == '#'
}

/// The first index at or after `i` that holds a segment end, or `s.len()`.
pub open spec fn segment_end_from(s: Seq<char>, i: int) -> int
    decreases s.len() - i,
{
    if i < 0 || i >= s.len() {
        s.len() as int
    } else if is_segment_end(s[i]) {
        i
    } else {
        segment_end_from(s, i + 1)
    }
}

pub open spec fn steam_host() -> Seq<char> {
    "steamcommunity.com"@
}

pub open spec fn custom_url_prefix() -> Seq<char> {
    "/id/"@
}

pub open spec fn profile_prefix() -> Seq<char> {
    "/profiles/"@
}

/// The user key of a Steam profile URL: the path segment after the first
/// `steamcommunity.com` when it is followed by `/id/` or `/profiles/`, up to
/// the first `/`, `?` or `#`; none where that segment is empty.
pub open spec fn url_user_key(url: Seq<char>) -> Option<Seq<char>> {
    match find_from(url, steam_host(), 0) {
        None => None,
        Some(i) => {
            let rest = url.skip(i + steam_host().len());
            let segment = if custom_url_prefix().is_prefix_of(rest) {
                Some(rest.skip(custom_url_prefix().len() as int))
            } else if profile_prefix().is_prefix_of(rest) {
                Some(rest.skip(profile_prefix().len() as int))
            } else {
                None
            };
            match segment {
                None => None,
                Some(seg) => {
                    let key = seg.take(segment_end_from(seg, 0));
                    if key.len() == 0 {
                        None
                    } else {
                        Some(key)
                    }
                },
            }
        },
    }
}

fn occurs_at_exec(s: &Vec<char>, p: &Vec<char>, i: usize) -> (r: bool)
    ensures
        r == occurs_at(s@, p@, i as int),
{
    if i > s.len() || p.len() > s.len() - i {
        return false;
    }
    let mut j: usize = 0;
    while j < p.len()
        invariant
            i + p.len() <= s.len(),
            j <= p.len(),
            forall|k: int| 0 <= k < j ==> s@[i + k] == p@[k],
        decreases p.len() - j,
    {
        if s[i + j] != p[j] {
            assert(s@.subrange(i as int, i + p.len())[j as int] != p@[j as int]);
            return false;
        }
        j = j + 1;
    }
    assert(s@.subrange(i as int, i + p.len()) =~= p@);
    true
}

fn find_exec(s: &Vec<char>, p: &Vec<char>) -> (r: Option<usize>)
    ensures
        r matches Some(i) ==> find_from(s@, p@, 0) == Some(i as int),
        r is None ==> find_from(s@, p@, 0) is None,
{
    let mut i: usize = 0;
    while i <= s.len()
        invariant
            i <= s.len() + 1,
            find_from(s@, p@, 0) == find_from(s@, p@, i as int),
        decreases s.len() + 1 - i,
    {
        if p.len() > s.len() - i {
            return None;
        }
        if occurs_at_exec(s, p, i) {
            return Some(i);
        }
        if i == s.len() {
            assert(find_from(s@, p@, i + 1) is None);
            return None;
        }
        i = i + 1;
    }
    None
}

fn segment_end_exec(s: &Vec<char>, from: usize) -> (r: usize)
    requires
        from <= s.len(),
    ensures
        r as int == segment_end_from(s@, from as int),
        from <= r <= s.len(),
{
    let mut i = from;
    while i < s.len()
        invariant
            from <= i <= s.len(),
            segment_end_from(s@, from as int) == segment_end_from(s@, i as int),
        decreases s.len() - i,
    {
        let c = s[i];
        if c == '/' || c == '?' || c == '#' {
            return i;
        }
        i = i + 1;
    }
    i
}

/// Extracts the user key from a Steam profile URL
/// (`https://steamcommunity.com/profiles/<id>/` or `/id/<custom>/`).
pub fn user_key_from_url(url: &str) -> (r: Option<String>)
    ensures
        r matches Some(k) ==> url_user_key(url@) == Some(k@),
        r is None ==> url_user_key(url@) is None,
{
    let u = chars_of(url);
    let host = chars_of("steamcommunity.com");
    let idx = match find_exec(&u, &host) {
        Some(i) => i,
        None => return None,
    };
    proof {
        lemma_find_from_found(u@, host@, 0, idx as int);
        assert(occurs_at(u@, host@, idx as int));
        assert(idx + host@.len() <= u@.len());
        assert(u@.len() == u.len());
        assert(host@.len() == host.len());
    }
    let start = idx + host.len();
    let id_prefix = chars_of("/id/");
    let profiles_prefix = chars_of("/profiles/");
    let ghost rest = u@.skip(start as int);
    let seg_start = if occurs_at_exec(&u, &id_prefix, start) {
        assert(id_prefix@.is_prefix_of(rest)) by {
            assert(rest.take(id_prefix@.len() as int) =~= u@.subrange(start as int, start + id_prefix@.len()));
        }
        start + id_prefix.len()
    } else if occurs_at_exec(&u, &profiles_prefix, start) {
        assert(!custom_url_prefix().is_prefix_of(rest)) by {
            if custom_url_prefix().is_prefix_of(rest) {
                assert(rest.take(id_prefix@.len() as int) =~= u@.subrange(start as int, start + id_prefix@.len()));
            }
        }
        assert(profiles_prefix@.is_prefix_of(rest)) by {
            assert(rest.take(profiles_prefix@.len() as int) =~= u@.subrange(start as int, start + profiles_prefix@.len()));
        }
        start + profiles_prefix.len()
    } else {
        assert(!custom_url_prefix().is_prefix_of(rest) && !profile_prefix().is_prefix_of(rest)) by {
            if custom_url_prefix().is_prefix_of(rest) {
                assert(rest.take(id_prefix@.len() as int) =~= u@.subrange(start as int, start + id_prefix@.len()));
            }
            if profile_prefix().is_prefix_of(rest) {
                assert(rest.take(profiles_prefix@.len() as int) =~= u@.subrange(start as int, start + profiles_prefix@.len()));
            }
        }
        return None;
    };
    let end = segment_end_exec(&u, seg_start);
    proof {
        let seg = u@.skip(seg_start as int);
        assert(seg =~= rest.skip(seg_start - start));
        lemma_segment_end_shift(u@, seg_start as int, 0);
    }
    if end == seg_start {
        return None;
    }
    let key = string_from_chars(&u, seg_start, end);
    assert(key@ =~= u@.skip(seg_start as int).take(end - seg_start));
    Some(key)
}

proof fn lemma_find_from_found(s: Seq<char>, p: Seq<char>, j: int, i: int)
    requires
        find_from(s, p, j) == Some(i),
    ensures
        occurs_at(s, p, i),
        j <= i,
        forall|k: int| j <= k < i ==> !occurs_at(s, p, k),
    decreases s.len() + 1 - j,
{
    if !(j < 0 || j + p.len() > s.len()) && !occurs_at(s, p, j) {
        lemma_find_from_found(s, p, j + 1, i);
    }
}

proof fn lemma_segment_end_shift(s: Seq<char>, off: int, i: int)
    requires
        0 <= off <= s.len(),
        0 <= i <= s.len() - off,
    ensures
        segment_end_from(s.skip(off), i) + off == segment_end_from(s, i + off),
    decreases s.len() - off - i,
{
    if i < s.len() - off {
        lemma_segment_end_shift(s, off, i + 1);
    }
}

proof fn lemma_not_occurs_at(s: Seq<char>, p: Seq<char>, i: int, j: int)
    requires
        0 <= i,
        0 <= j < p.len(),
        i + j < s.len(),
        s[i + j] != p[j],
    ensures
        !occurs_at(s, p, i),
{
    if i + p.len() <= s.len() {
        assert(s.subrange(i, i + p.len())[j] != p[j]);
    }
}

proof fn lemma_segment_end_of_key(k: Seq<char>, tail: Seq<char>, i: int)
    requires
        0 <= i <= k.len(),
        forall|t: int| 0 <= t < k.len() ==> !is_segment_end(#[trigger] k[t]),
        tail.len() == 0 || is_segment_end(tail[0]),
    ensures
        segment_end_from(k + tail, i) == k.len(),
    decreases k.len() - i,
{
    if i < k.len() {
        assert((k + tail)[i] == k[i]);
        lemma_segment_end_of_key(k, tail, i + 1);
    } else if tail.len() > 0 {
        assert((k + tail)[i] == tail[0]);
    }
}

/// A Steam profile URL, by its kind (`/id/` or `/profiles/`), key and tail.
pub open spec fn profile_url(kind: Seq<char>, key: Seq<char>, tail: Seq<char>) -> Seq<char> {
    "https://steamcommunity.com"@ + kind + key + tail
}

/// The user key comes back out of the profile URL it was put into: for
/// either kind of profile URL, any nonempty key without `/`, `?` or `#`, and
/// any tail that is empty or starts with one of those.
pub proof fn lemma_profile_url_round_trip(custom: bool, key: Seq<char>, tail: Seq<char>)
    requires
        key.len() > 0,
        forall|t: int| 0 <= t < key.len() ==> !is_segment_end(#[trigger] key[t]),
        tail.len() == 0 || is_segment_end(tail[0]),
    ensures
        url_user_key(
            profile_url(
                if custom {
                    custom_url_prefix()
                } else {
                    profile_prefix()
                },
                key,
                tail,
            ),
        ) == Some(key),
{
    reveal_strlit("https://steamcommunity.com");
    reveal_strlit("steamcommunity.com");
    reveal_strlit("/id/");
    reveal_strlit("/profiles/");
    let lit = "https://steamcommunity.com"@;
    let kind = if custom {
        custom_url_prefix()
    } else {
        profile_prefix()
    };
    let url = profile_url(kind, key, tail);
    let host = steam_host();
    assert(lit.len() == 26);
    assert forall|i: int| 0 <= i < 26 implies #[trigger] url[i] == lit[i] by {
        assert(url == lit + (kind + key + tail)) by {
            assert(url =~= lit + (kind + key + tail));
        }
    }
    lemma_not_occurs_at(url, host, 0, 0);
    lemma_not_occurs_at(url, host, 1, 0);
    lemma_not_occurs_at(url, host, 2, 0);
    lemma_not_occurs_at(url, host, 3, 0);
    lemma_not_occurs_at(url, host, 4, 1);
    lemma_not_occurs_at(url, host, 5, 0);
    lemma_not_occurs_at(url, host, 6, 0);
    lemma_not_occurs_at(url, host, 7, 0);
    assert(url.subrange(8, 26) =~= host);
    assert(occurs_at(url, host, 8));
    assert(find_from(url, host, 8) == Some(8int));
    assert(find_from(url, host, 7) == Some(8int));
    assert(find_from(url, host, 6) == Some(8int));
    assert(find_from(url, host, 5) == Some(8int));
    assert(find_from(url, host, 4) == Some(8int));
    assert(find_from(url, host, 3) == Some(8int));
    assert(find_from(url, host, 2) == Some(8int));
    assert(find_from(url, host, 1) == Some(8int));
    assert(find_from(url, host, 0) == Some(8int));
    let rest = url.skip(26);
    assert(rest =~= kind + key + tail);
    if custom {
        assert(rest.take(4) =~= custom_url_prefix());
        assert(custom_url_prefix().is_prefix_of(rest));
        assert(rest.skip(4) =~= key + tail);
    } else {
        assert(rest[1] == 'p');
        if custom_url_prefix().is_prefix_of(rest) {
            assert(rest.take(4)[1] == rest[1]);
            assert(rest.take(4) == custom_url_prefix());
        }
        assert(!custom_url_prefix().is_prefix_of(rest));
        assert(rest.take(10) =~= profile_prefix());
        assert(profile_prefix().is_prefix_of(rest));
        assert(rest.skip(10) =~= key + tail);
    }
    lemma_segment_end_of_key(key, tail, 0);
    assert((key + tail).take(key.len() as int) =~= key);
}

/// One game of a snapshot as the browser script sends it.
#[derive(Clone, Debug)]
pub struct RawGame {
    pub appid: Option<u32>,
    pub name: Option<String>,
    pub hours_2weeks: Option<Hours>,
    pub hours_record: Option<Hours>,
}

/// A snapshot as the browser script posts it to `/callback`.
#[derive(Clone, Debug)]
pub struct CallbackPayload {
    pub page: String,
    pub url: String,
    pub time: i64,
    pub manual: bool,
    pub disabled: bool,
    pub persona: Option<String>,
    pub two_weeks_total: Option<Hours>,
    pub games: Vec<RawGame>,
}

/// What the listener hands to the window.
#[derive(Debug)]
pub enum Event {
    Hello(String),
    Callback(CallbackPayload),
    Log(String),
}

/// The game report that a raw game stands for: a missing name is empty.
pub open spec fn raw_game_data(r: RawGame) -> GameDataView {
    GameDataView {
        appid: r.appid,
        name: match r.name {
            Some(n) => n@,
            None => Seq::empty(),
        },
        hours_2weeks: r.hours_2weeks,
        hours_record: r.hours_record,
    }
}

/// The game reports of a snapshot.
pub open spec fn payload_games(p: CallbackPayload) -> Seq<GameDataView> {
    p.games@.map_values(|r: RawGame| raw_game_data(r))
}

/// The database after a posted snapshot: a snapshot that is switched off, or
/// that comes from a page that is no profile, changes nothing; any other is
/// recorded under the user key of its URL.
pub open spec fn apply_payload_spec(db: Map<Seq<char>, UserView>, p: CallbackPayload) -> Map<
    Seq<char>,
    UserView,
> {
    if p.disabled {
        db
    } else {
        match url_user_key(p.url@) {
            None => db,
            Some(key) => apply_callback_spec(
                db,
                key,
                p.url@,
                opt_string_view(p.persona),
                payload_games(p),
                p.two_weeks_total,
                p.time,
            ),
        }
    }
}

fn to_game_data(r: &RawGame) -> (g: GameData)
    ensures
        g@ == raw_game_data(*r),
{
    GameData {
        appid: r.appid,
        name: match &r.name {
            Some(n) => n.clone(),
            None => String::new(),
        },
        hours_2weeks: r.hours_2weeks,
        hours_record: r.hours_record,
    }
}

impl Database {
    /// Records a posted snapshot, as `apply_payload_spec` says; answers
    /// whether it was recorded (and the database is to be saved).
    pub fn apply_payload(&mut self, p: &CallbackPayload) -> (recorded: bool)
        ensures
            final(self)@ == apply_payload_spec(old(self)@, *p),
            recorded == (!p.disabled && url_user_key(p.url@) is Some),
    {
        if p.disabled {
            return false;
        }
        let key = match user_key_from_url(p.url.as_str()) {
            Some(k) => k,
            None => return false,
        };
        let mut games: Vec<GameData> = Vec::new();
        let mut i: usize = 0;
        while i < p.games.len()
            invariant
                i <= p.games@.len(),
                games@.len() == i,
                forall|j: int| 0 <= j < i ==> #[trigger] games@[j]@ == raw_game_data(p.games@[j]),
            decreases p.games.len() - i,
        {
            games.push(to_game_data(&p.games[i]));
            i = i + 1;
        }
        assert(game_data_views(games@) =~= payload_games(*p));
        let persona: Option<&str> = match &p.persona {
            Some(s) => Some(s.as_str()),
            None => None,
        };
        self.apply_callback(key.as_str(), p.url.as_str(), persona, games.as_slice(), p.two_weeks_total, p.time);
        true
    }
}

/// The HTTP methods that the listener tells apart.
#[derive(Clone, Copy, Debug, PartialEq, Eq, Structural)]
pub enum HttpMethod {
    Get,
    Post,
    Options,
    Other,
}

/// An answer to a request: a status code and a JSON body.
#[derive(Clone, Copy, Debug)]
pub struct Reply {
    pub status: u16,
    pub body: &'static str,
}

/// What to do with a request.
#[derive(Clone, Copy, Debug)]
pub enum Route {
    /// Answer at once.
    Answer(Reply),
    /// Pass the body on as the URL of the browser tab, then answer `ok_reply`.
    Hello,
    /// Parse the body as a snapshot, then answer `callback_reply`.
    Callback,
}

/// The answer that acknowledges a hello or a snapshot.
pub fn ok_reply() -> (r: Reply)
    ensures
        r.status == 200,
        r.body@ == "{\"ok\":true}"@,
{
    Reply { status: 200, body: "{\"ok\":true}" }
}

/// The answer to a posted snapshot, by whether its body parsed.
pub fn callback_reply(parsed: bool) -> (r: Reply)
    ensures
        parsed ==> r.status == 200 && r.body@ == "{\"ok\":true}"@,
        !parsed ==> r.status == 400 && r.body@ == "{\"error\":\"bad payload\"}"@,
{
    if parsed {
        ok_reply()
    } else {
        Reply { status: 400, body: "{\"error\":\"bad payload\"}" }
    }
}

/// Whether `r` answers at once with `status` and `body`.
pub open spec fn answers(r: Route, status: u16, body: Seq<char>) -> bool {
    match r {
        Route::Answer(a) => a.status == status && a.body@ == body,
        _ => false,
    }
}

/// How the listener treats a request with `method` on `path`.
pub fn route(method: HttpMethod, path: &str) -> (r: Route)
    ensures
        method == HttpMethod::Options ==> answers(r, 200, "{}"@),
        method == HttpMethod::Get && path@ == "/status"@ ==> answers(
            r,
            200,
            "{\"state\":\"running\"}"@,
        ),
        method == HttpMethod::Get && path@ != "/status"@ ==> answers(
            r,
            404,
            "{\"error\":\"not found\"}"@,
        ),
        method == HttpMethod::Post && path@ == "/hello"@ ==> r is Hello,
        method == HttpMethod::Post && path@ == "/callback"@ ==> r is Callback,
        method == HttpMethod::Post && path@ != "/hello"@ && path@ != "/callback"@ ==> answers(
            r,
            404,
            "{\"error\":\"not found\"}"@,
        ),
        method == HttpMethod::Other ==> answers(r, 405, "{\"error\":\"method not allowed\"}"@),
{
    proof {
        reveal_strlit("/hello");
        reveal_strlit("/callback");
        assert("/hello"@.len() != "/callback"@.len());
    }
    match method {
        HttpMethod::Options => Route::Answer(Reply { status: 200, body: "{}" }),
        HttpMethod::Get => {
            if str_equal(path, "/status") {
                Route::Answer(Reply { status: 200, body: "{\"state\":\"running\"}" })
            } else {
                Route::Answer(Reply { status: 404, body: "{\"error\":\"not found\"}" })
            }
        },
        HttpMethod::Post => {
            if str_equal(path, "/hello") {
                Route::Hello
            } else if str_equal(path, "/callback") {
                Route::Callback
            } else {
                Route::Answer(Reply { status: 404, body: "{\"error\":\"not found\"}" })
            }
        },
        HttpMethod::Other => Route::Answer(
            Reply { status: 405, body: "{\"error\":\"method not allowed\"}" },
        ),
    }
}

} // verus!
