//! What the HTTP server says: the page, the events of each stream, and the
//! reply to an answer.
//!
//! There are two independent games ("rooms"): the normal quiz at `/`, and a
//! fast one at `/fast` that closes each question as soon as everyone online
//! has answered. Each has its own players, clock, spectator screen and
//! cookie; the stylesheet, scripts and break slides are shared.
//!
//! Players are identified by an opaque random token in an HttpOnly cookie,
//! issued on the first page load or event stream without a known one.

use crate::game::{
    is_generated, reply_model, token_text, AnswerError, Game, PhaseView, PlayerId, Tally,
};
use crate::html::{
    self, fits_letters, game_html, page_html, qr_matrix, shown_can_be_rendered, slide_shown_html,
    spectate_game_html, spectate_page_html, svg_html, tally_text_html, without_slashes, Urls,
};
use crate::promises::{what_an_answer_changes, who_is_counted};
use crate::quiz::{text_model, texts};
use crate::slides::{following, next, Slide};
use crate::sort::Key;
use crate::state::{
    advance_fits, advanced, after_answer, answer_result, answered, can_deal, connected,
    disconnected, is_due, is_free_name, is_known, is_new, is_valid, joined, knows, online, pick_of,
    player, shown, token_of, welcome, welcomed, with_pick, worth, GameModel, Phase, PlayerModel,
};
use crate::text::{
    chars_of, decimal, decimal_is_injective, decimal_string, find_char, hex, hex_is_injective,
    hex_padded_is_injective, is_space, push_decimal, push_hex, same, same_chars, sixteens,
    string_of, trim, trim_keeps, trim_range, trim_skips, until, until_after, until_is_first,
};
use crate::upkeep::{joined_is_valid, with_player_changes_one};
use std::sync::Arc;
use vstd::prelude::*;

verus! {

/// Long enough to cover a whole conference.
pub const COOKIE_MAX_AGE: u32 = 14 * 24 * 60 * 60;

/// How often the spectator screen's answer count is refreshed, in
/// milliseconds.
pub const TALLY_EVERY_MS: u64 = 500;

pub const CSP: &'static str = "default-src 'self'; frame-ancestors 'none'";

pub const NORMAL_COOKIE: &'static str = "nixcon_quiz";

pub const FAST_COOKIE: &'static str = "nixcon_quiz_fast";

/// Where the normal quiz is. Event streams stay under `/api/events` so the
/// proxy config for unbuffered streams covers both rooms.
pub fn normal() -> (r: Urls)
    ensures
        r.page@ == "/"@,
        r.spectate@ == "/spectate"@,
        r.qr@ == "/qr.svg"@,
        r.events@ == "/api/events"@,
        r.spectate_events@ == "/api/events/spectate"@,
        r.answer@ == "/api/answer"@,
{
    Urls {
        page: "/",
        spectate: "/spectate",
        qr: "/qr.svg",
        events: "/api/events",
        spectate_events: "/api/events/spectate",
        answer: "/api/answer",
    }
}

/// Where the fast quiz is.
pub fn fast() -> (r: Urls)
    ensures
        r.page@ == "/fast"@,
        r.spectate@ == "/fast/spectate"@,
        r.qr@ == "/fast/qr.svg"@,
        r.events@ == "/api/events/fast"@,
        r.spectate_events@ == "/api/events/fast/spectate"@,
        r.answer@ == "/api/answer/fast"@,
{
    Urls {
        page: "/fast",
        spectate: "/fast/spectate",
        qr: "/fast/qr.svg",
        events: "/api/events/fast",
        spectate_events: "/api/events/fast/spectate",
        answer: "/api/answer/fast",
    }
}

// Replies

/// An HTTP response: status, headers, and the body if there is one.
pub struct Reply {
    pub status: u16,
    pub headers: Vec<(&'static str, String)>,
    pub body: Option<String>,
}

#[verifier::ext_equal]
pub struct ReplyModel {
    pub status: u16,
    pub headers: Seq<(Seq<char>, Seq<char>)>,
    pub body: Option<Seq<char>>,
}

pub open spec fn header_models(headers: Seq<(&'static str, String)>) -> Seq<
    (Seq<char>, Seq<char>),
> {
    headers.map_values(|h: (&'static str, String)| (h.0@, h.1@))
}

impl Reply {
    pub open spec fn model(&self) -> ReplyModel {
        ReplyModel {
            status: self.status,
            headers: header_models(self.headers@),
            body: match self.body {
                Some(b) => Some(b@),
                None => None,
            },
        }
    }
}

/// A status with a line of text.
pub open spec fn plain_reply(status: u16, text: Seq<char>) -> ReplyModel {
    ReplyModel { status, headers: Seq::empty(), body: Some(text) }
}

fn plain(status: u16, text: &str) -> (r: Reply)
    ensures
        r.model() == plain_reply(status, text@),
{
    let r = Reply { status, headers: Vec::new(), body: Some(text.to_owned()) };
    assert(r.model() =~= plain_reply(status, text@));
    r
}

/// A status and nothing else.
pub open spec fn bare_reply(status: u16) -> ReplyModel {
    ReplyModel { status, headers: Seq::empty(), body: None }
}

/// There is nothing at this address.
pub fn not_found() -> (r: Reply)
    ensures
        r.model() == bare_reply(404),
{
    let r = Reply { status: 404, headers: Vec::new(), body: None };
    assert(r.model() =~= bare_reply(404));
    r
}

pub open spec fn full_reply() -> ReplyModel {
    plain_reply(503, "the quiz is full"@)
}

/// Nobody else can join.
pub fn full() -> (r: Reply)
    ensures
        r.model() == full_reply(),
{
    plain(503, "the quiz is full")
}

pub open spec fn html_reply(page: Seq<char>) -> ReplyModel {
    ReplyModel {
        status: 200,
        headers: seq![
            ("content-type"@, "text/html; charset=utf-8"@),
            ("cache-control"@, "no-store"@),
            ("content-security-policy"@, CSP@),
        ],
        body: Some(page),
    }
}

/// A page.
pub fn html_response(page: String) -> (r: Reply)
    ensures
        r.model() == html_reply(page@),
{
    let r = Reply {
        status: 200,
        headers: vec![
            ("content-type", "text/html; charset=utf-8".to_owned()),
            ("cache-control", "no-store".to_owned()),
            ("content-security-policy", CSP.to_owned()),
        ],
        body: Some(page),
    };
    assert(r.model() =~= html_reply(page@));
    r
}

/// The headers of a file.
pub open spec fn file_header_models(content_type: Seq<char>, cache: Seq<char>) -> Seq<
    (Seq<char>, Seq<char>),
> {
    seq![("content-type"@, content_type), ("cache-control"@, cache)]
}

/// The headers of a file: what it is, and how long it may be kept.
pub fn file_headers(content_type: &str, cache: &str) -> (r: Vec<(&'static str, String)>)
    ensures
        header_models(r@) == file_header_models(content_type@, cache@),
{
    let r = vec![
        ("content-type", content_type.to_owned()),
        ("cache-control", cache.to_owned()),
    ];
    assert(header_models(r@) =~= file_header_models(content_type@, cache@));
    r
}

/// The cache control of what never changes under its name.
pub const FOREVER: &'static str = "public, max-age=31536000, immutable";

/// The cache control of what may change with the next version.
pub const CHECK_AGAIN: &'static str = "no-cache";

pub open spec fn file_reply(
    content_type: Seq<char>,
    cache: Seq<char>,
    text: Seq<char>,
) -> ReplyModel {
    ReplyModel {
        status: 200,
        headers: file_header_models(content_type, cache),
        body: Some(text),
    }
}

/// A file of text.
pub fn static_file(content_type: &str, cache: &str, text: String) -> (r: Reply)
    ensures
        r.model() == file_reply(content_type@, cache@, text@),
{
    Reply { status: 200, headers: file_headers(content_type, cache), body: Some(text) }
}

/// What a third-party file is, by its name.
pub open spec fn vendor_type(file: Seq<char>) -> Option<Seq<char>> {
    if file == "htmx-2.0.11.min.js"@ || file == "htmx-ext-sse-2.2.4.min.js"@ {
        Some("text/javascript; charset=utf-8"@)
    } else if file == "ibm-plex-mono-latin-400-normal.woff2"@ || file
        == "ibm-plex-mono-latin-600-normal.woff2"@ || file
        == "ibm-plex-mono-latin-ext-400-normal.woff2"@ || file
        == "ibm-plex-mono-latin-ext-600-normal.woff2"@ || file
        == "press-start-2p-latin-400-normal.woff2"@ || file
        == "press-start-2p-latin-ext-400-normal.woff2"@ {
        Some("font/woff2"@)
    } else if file == "nixcon-2026-icon.svg"@ {
        Some("image/svg+xml"@)
    } else if file == "nixcon-2026-cloud.png"@ {
        Some("image/png"@)
    } else {
        None
    }
}

/// What a third-party file is. Their versions are part of the file names, so
/// browsers may cache them forever. There are no others.
pub fn vendor(file: &str) -> (r: Option<&'static str>)
    ensures
        match r {
            Some(t) => vendor_type(file@) == Some(t@),
            None => vendor_type(file@) is None,
        },
{
    if same(file, "htmx-2.0.11.min.js") || same(file, "htmx-ext-sse-2.2.4.min.js") {
        Some("text/javascript; charset=utf-8")
    } else if same(file, "ibm-plex-mono-latin-400-normal.woff2") || same(
        file,
        "ibm-plex-mono-latin-600-normal.woff2",
    ) || same(file, "ibm-plex-mono-latin-ext-400-normal.woff2") || same(
        file,
        "ibm-plex-mono-latin-ext-600-normal.woff2",
    ) || same(file, "press-start-2p-latin-400-normal.woff2") || same(
        file,
        "press-start-2p-latin-ext-400-normal.woff2",
    ) {
        Some("font/woff2")
    } else if same(file, "nixcon-2026-icon.svg") {
        Some("image/svg+xml")
    } else if same(file, "nixcon-2026-cloud.png") {
        Some("image/png")
    } else {
        None
    }
}

// Cookies

/// What the browser is told to keep.
pub open spec fn cookie_text(name: Seq<char>, token: Seq<char>) -> Seq<char> {
    name + "="@ + token + "; Path=/; Max-Age="@ + decimal(COOKIE_MAX_AGE as nat)
        + "; HttpOnly; SameSite=Strict"@
}

/// A reply with the cookie of a new player, if this is one.
pub open spec fn with_cookie(
    reply: ReplyModel,
    name: Seq<char>,
    token: Option<Seq<char>>,
) -> ReplyModel {
    match token {
        Some(t) => ReplyModel {
            headers: reply.headers.push(("set-cookie"@, cookie_text(name, t))),
            ..reply
        },
        None => reply,
    }
}

/// The value of the header that has the browser keep a token.
pub fn cookie(name: &str, token: &str) -> (r: String)
    ensures
        r@ == cookie_text(name@, token@),
{
    let mut out = name.to_owned();
    out.append("=");
    out.append(token);
    out.append("; Path=/; Max-Age=");
    push_decimal(&mut out, COOKIE_MAX_AGE as u64);
    out.append("; HttpOnly; SameSite=Strict");
    out
}

/// Has the browser keep a token.
pub fn set_cookie(reply: &mut Reply, name: &str, token: &str)
    ensures
        final(reply).model() == with_cookie(old(reply).model(), name@, Some(token@)),
{
    reply.headers.push(("set-cookie", cookie(name, token)));
    assert(reply.model() =~= with_cookie(old(reply).model(), name@, Some(token@)));
}

/// The value of a pair, if it is that of this name.
pub open spec fn pair_value(pair: Seq<char>, name: Seq<char>) -> Option<Seq<char>> {
    let at = until(pair, '=') as int;
    if at < pair.len() && pair.take(at) == name {
        Some(pair.skip(at + 1))
    } else {
        None
    }
}

/// The value of the first cookie of this name in a header.
pub open spec fn cookie_in(header: Seq<char>, name: Seq<char>) -> Option<Seq<char>>
    decreases header.len(),
{
    let end = until(header, ';') as int;
    let value = pair_value(trim(header.take(end)), name);
    if value is Some {
        value
    } else if end < header.len() {
        cookie_in(header.skip(end + 1), name)
    } else {
        None
    }
}

/// The value of the first cookie of this name.
pub open spec fn cookie_of(headers: Seq<Seq<char>>, name: Seq<char>) -> Option<Seq<char>>
    decreases headers.len(),
{
    if headers.len() == 0 {
        None
    } else if cookie_in(headers[0], name) is Some {
        cookie_in(headers[0], name)
    } else {
        cookie_of(headers.skip(1), name)
    }
}

fn read_cookie(header: &str, name: &str) -> (r: Option<String>)
    ensures
        text_model(r) == cookie_in(header@, name@),
{
    let chars = chars_of(header);
    let name_chars = chars_of(name);
    let n: usize = chars.len();
    let mut from: usize = 0;
    assert(chars@.skip(0) =~= header@);
    while from <= n
        invariant
            n == chars@.len(),
            from <= n,
            name_chars@ == name@,
            cookie_in(header@, name@) == cookie_in(chars@.skip(from as int), name@),
        ensures
            cookie_in(header@, name@) is None,
        decreases n - from,
    {
        let ghost rest = chars@.skip(from as int);
        let end = find_char(&chars, from, n, ';');
        let (a, b) = trim_range(&chars, from, end);
        let at = find_char(&chars, a, b, '=');
        let ghost pair = chars@.subrange(a as int, b as int);
        proof {
            assert(chars@.subrange(from as int, n as int) =~= rest);
            assert(rest.take(end - from) =~= chars@.subrange(from as int, end as int));
            assert(pair.take(at - a) =~= chars@.subrange(a as int, at as int));
        }
        if at < b && same_chars(&chars, a, at, &name_chars) {
            assert(pair.skip(at - a + 1) =~= chars@.subrange(at + 1, b as int));
            return Some(string_of(&chars, at + 1, b));
        }
        if end >= n {
            break;
        }
        assert(rest.skip(end - from + 1) =~= chars@.skip(end + 1));
        from = end + 1;
    }
    None
}

/// The player's token, from the cookie headers of a request.
pub fn token(headers: &Vec<String>, name: &str) -> (r: Option<String>)
    ensures
        text_model(r) == cookie_of(texts(headers@), name@),
{
    let mut i: usize = 0;
    let ghost all = texts(headers@);
    assert(all.skip(0) =~= all);
    while i < headers.len()
        invariant
            i <= headers@.len(),
            all == texts(headers@),
            cookie_of(all, name@) == cookie_of(all.skip(i as int), name@),
        decreases headers@.len() - i,
    {
        let value = read_cookie(headers[i].as_str(), name);
        proof {
            assert(all.skip(i as int)[0] == headers@[i as int]@);
            assert(all.skip(i as int).skip(1) =~= all.skip(i + 1));
        }
        if value.is_some() {
            return value;
        }
        i += 1;
    }
    None
}

// Addresses

/// Where players join: under the public URL, or the host the request came to.
pub open spec fn join_address(
    public_url: Option<Seq<char>>,
    host: Option<Seq<char>>,
    page: Seq<char>,
) -> Seq<char> {
    let base = match public_url {
        Some(url) => url,
        None => "http://"@ + match host {
            Some(h) => h,
            None => "localhost"@,
        } + "/"@,
    };
    without_slashes(base) + page
}

fn trim_slashes(text: &str) -> (r: String)
    ensures
        r@ == without_slashes(text@),
{
    let chars = chars_of(text);
    let mut to: usize = chars.len();
    assert(chars@.take(to as int) =~= chars@);
    while to > 0 && chars[to - 1] == '/'
        invariant
            to <= chars@.len(),
            without_slashes(text@) == without_slashes(chars@.take(to as int)),
        ensures
            to <= chars@.len(),
            !(to > 0 && chars@[to - 1] == '/'),
        decreases to,
    {
        assert(chars@.take(to as int).drop_last() =~= chars@.take(to - 1));
        to -= 1;
    }
    assert(chars@.subrange(0, to as int) =~= chars@.take(to as int));
    string_of(&chars, 0, to)
}

/// Where players join the room: under the public URL, or the host this
/// request came to.
pub fn join_url(public_url: Option<&str>, host: Option<&str>, page: &str) -> (r: String)
    ensures
        r@ == join_address(token_text(public_url), token_text(host), page@),
{
    let mut url = match public_url {
        Some(url) => trim_slashes(url),
        None => {
            let mut base = "http://".to_owned();
            base.append(
                match host {
                    Some(h) => h,
                    None => "localhost",
                },
            );
            base.append("/");
            trim_slashes(base.as_str())
        },
    };
    url.append(page);
    url
}

/// The name of a rendered state: which process, and how many phase changes.
pub open spec fn version_text(boot: u64, changes: u64) -> Seq<char> {
    hex(boot as nat) + "-"@ + decimal(changes as nat)
}

/// Names the rendered state: which process, and how many phase changes.
pub fn version(boot: u64, changes: u64) -> (r: String)
    ensures
        r@ == version_text(boot, changes),
{
    let mut out = String::new();
    push_hex(&mut out, boot);
    assert(out@ =~= hex(boot as nat));
    out.append("-");
    push_decimal(&mut out, changes);
    out
}

/// Whether a stream begins with a fresh view: not when the page already shows
/// the current state, since re-rendering it could undo a pick whose request
/// is still in flight. After a phase change or a reconnect to a restarted
/// server the versions differ.
pub fn sends_first(seen: Option<&str>, boot: u64, changes: u64) -> (r: bool)
    ensures
        r == (token_text(seen) != Some(version_text(boot, changes))),
{
    match seen {
        Some(s) => !same(s, version(boot, changes).as_str()),
        None => true,
    }
}

/// How long the clock sleeps, in milliseconds.
pub fn wait(deadline: u64, now: u64) -> (r: u64)
    ensures
        r == (if deadline > now + 1 {
            deadline - now
        } else {
            1
        }),
{
    if deadline > now {
        deadline - now
    } else {
        1
    }
}

// Rooms

/// One game and where it lives.
pub struct Room {
    pub game: Game,
    /// Bumped whenever the phase changes; every event stream re-renders.
    pub changes: u64,
    pub urls: Urls,
    /// A cookie per room, so playing both keeps both players.
    pub cookie: &'static str,
    /// Whether a question closes once everyone online has answered.
    pub fast: bool,
}

/// The page of someone who came, if there was room for them.
pub open spec fn index_reply(
    m: GameModel,
    urls: Urls,
    cookie: Seq<char>,
    version: Seq<char>,
    joined: Option<(PlayerId, Option<Seq<char>>)>,
    now: u64,
) -> ReplyModel {
    match joined {
        Some((id, token)) => with_cookie(
            html_reply(
                page_html(shown(m, Some(id), now), urls.events@, urls.answer@, version),
            ),
            cookie,
            token,
        ),
        None => full_reply(),
    }
}

/// The livestream screen.
pub open spec fn spectate_reply(
    m: GameModel,
    urls: Urls,
    join: Seq<char>,
    slide: Option<Option<&Slide>>,
    now: u64,
) -> ReplyModel {
    html_reply(
        spectate_page_html(
            shown(m, None, now),
            answered(m.players),
            online(m.players),
            urls.spectate_events@,
            urls.qr@,
            join,
            slide,
        ),
    )
}

/// The player behind a token.
pub open spec fn player_behind(m: GameModel, token: Option<Seq<char>>) -> Option<PlayerId> {
    if is_known(m, token) {
        Some(m.tokens[token->0])
    } else {
        None
    }
}

/// The game after the pick of whoever has this token.
pub open spec fn after_pick(
    m: GameModel,
    token: Option<Seq<char>>,
    seq: u64,
    choice: usize,
    now: u64,
) -> GameModel {
    match player_behind(m, token) {
        Some(id) => after_answer(m, id, seq, choice, now),
        None => m,
    }
}

/// What the player's pick for the open question earns if it is right.
pub open spec fn pick_worth(m: GameModel, id: PlayerId) -> u64 {
    worth(m.phase->started, m.phase->Question_ends, pick_of(m.players, Some(id))->0.at)
}

/// What a pick is answered: on success what it earns if it is right.
pub open spec fn answer_reply(
    m: GameModel,
    token: Option<Seq<char>>,
    seq: u64,
    choice: usize,
    now: u64,
) -> ReplyModel {
    match player_behind(m, token) {
        None => plain_reply(401, "unknown player"@),
        Some(id) => match answer_result(m, id, seq, choice, now) {
            Ok(()) => ReplyModel {
                status: 204,
                headers: seq![
                    (
                        "x-points"@,
                        decimal(
                            pick_worth(after_answer(m, id, seq, choice, now), id) as nat,
                        ),
                    ),
                ],
                body: None,
            },
            Err(AnswerError::Closed) => plain_reply(409, "question closed"@),
            Err(AnswerError::InvalidChoice) => plain_reply(400, "no such choice"@),
        },
    }
}

/// The game moved on if it was due, and was left alone if not.
pub open spec fn has_moved(
    m: GameModel,
    changes: u64,
    fast: bool,
    now: u64,
    m2: GameModel,
    changes2: u64,
) -> bool {
    if is_due(m, fast, now) {
        &&& changes2 == changes + 1
        &&& exists|order: Seq<usize>|
            can_deal(m, order) && m2 == #[trigger] advanced(m, now, order)
    } else {
        m2 == m && changes2 == changes
    }
}

/// The game can move on if it is due: there are numbers left for it.
pub open spec fn can_move(m: GameModel, changes: u64, fast: bool, now: u64) -> bool {
    is_due(m, fast, now) ==> advance_fits(m, now) && changes < u64::MAX
}

/// An event of the spectator screen's stream.
pub struct Message {
    /// The kind of event; the whole view has none.
    pub event: Option<&'static str>,
    pub data: String,
}

/// What wakes the spectator screen's stream.
#[derive(Clone, Copy)]
pub enum Wake {
    /// The phase changed.
    Changed,
    /// There is a new slide.
    Slide,
    /// Some time has passed.
    Time,
    /// The server is shutting down.
    Closed,
}

/// What the spectator screen's stream does next.
pub enum Step {
    /// Sends the whole view.
    Refresh,
    Send(Message, Tally),
    Wait,
    End,
}

impl Room {
    /// What holds of every room: each choice of its questions has a letter.
    pub open spec fn wf(&self) -> bool {
        self.game.wf() && fits_letters(self.game.model())
    }

    /// Where the room is does not change.
    pub open spec fn is_at(&self, other: Room) -> bool {
        self.urls == other.urls && self.cookie@ == other.cookie@ && self.fast == other.fast
    }

    pub fn new(game: Game, urls: Urls, cookie: &'static str, fast: bool) -> (r: Self)
        requires
            game.wf(),
            fits_letters(game.model()),
        ensures
            r.wf(),
            r == (Room { game, changes: 0, urls, cookie, fast }),
    {
        Room { game, changes: 0, urls, cookie, fast }
    }

    /// Whether there are numbers left for the game to move on.
    pub fn can_move(&self, now: u64) -> (r: bool)
        ensures
            r == (advance_fits(self.game.model(), now) && self.changes < u64::MAX),
    {
        self.game.can_advance(now) && self.changes < u64::MAX
    }

    /// Moves the game along if it's due, and counts the change.
    pub fn advance(&mut self, now: u64)
        requires
            old(self).wf(),
            can_move(old(self).game.model(), old(self).changes, old(self).fast, now),
        ensures
            final(self).wf(),
            final(self).is_at(*old(self)),
            has_moved(
                old(self).game.model(),
                old(self).changes,
                old(self).fast,
                now,
                final(self).game.model(),
                final(self).changes,
            ),
    {
        if self.game.advance(self.fast, now) {
            self.changes = self.changes + 1;
        }
    }

    /// The page for someone who came, given what joining gave.
    pub fn index_page(&self, boot: u64, joined: Option<(PlayerId, Option<String>)>, now: u64) -> (r:
        Reply)
        requires
            self.wf(),
        ensures
            r.model() == index_reply(
                self.game.model(),
                self.urls,
                self.cookie@,
                version_text(boot, self.changes),
                reply_model(joined),
                now,
            ),
    {
        match joined {
            Some((id, new_token)) => {
                proof {
                    self.game.wf_is_valid();
                    shown_can_be_rendered(self.game.model(), Some(id), now);
                }
                let seen = version(boot, self.changes);
                let view = self.game.view(id, now);
                let page = html::page(&view, &self.urls, seen.as_str()).into_string();
                let mut reply = html_response(page);
                if let Some(token) = &new_token {
                    set_cookie(&mut reply, self.cookie, token.as_str());
                }
                reply
            },
            None => full(),
        }
    }

    /// Someone loads the page. They are the player of their cookie, or become
    /// a new one.
    pub fn index(&mut self, boot: u64, cookies: &Vec<String>, now: u64) -> (r: Reply)
        requires
            old(self).wf(),
            is_new(old(self).game.model(), cookie_of(texts(cookies@), old(self).cookie@))
                ==> old(self).game.model().next_id < u64::MAX,
        ensures
            final(self).wf(),
            final(self).is_at(*old(self)),
            final(self).changes == old(self).changes,
            ({
                let m = old(self).game.model();
                let token = cookie_of(texts(cookies@), old(self).cookie@);
                exists|number: u128, name: Seq<char>|
                    {
                        &&& is_generated(m.players, name)
                        &&& is_free_name(m.players, name)
                        &&& final(self).game.model() == #[trigger] welcomed(
                            m,
                            token,
                            token_of(number),
                            name,
                            now,
                        )
                        &&& r.model() == index_reply(
                            final(self).game.model(),
                            old(self).urls,
                            old(self).cookie@,
                            version_text(boot, old(self).changes),
                            welcome(m, token, token_of(number)),
                            now,
                        )
                    }
            }),
    {
        let kept = token(cookies, self.cookie);
        let joined = self.game.join(
            match &kept {
                Some(t) => Some(t.as_str()),
                None => None,
            },
            now,
        );
        self.index_page(boot, joined, now)
    }

    /// Someone opens a stream: they are the player of their cookie, or become
    /// a new one, and are online for as long as it lives. Nothing where the
    /// game is full.
    pub fn arrive(&mut self, cookies: &Vec<String>, now: u64) -> (r: Option<
        (PlayerId, Option<String>),
    >)
        requires
            old(self).wf(),
            ({
                let m = old(self).game.model();
                let token = cookie_of(texts(cookies@), old(self).cookie@);
                &&& is_new(m, token) ==> m.next_id < u64::MAX
                &&& is_known(m, token) ==> player(m.players, m.tokens[token->0]).connections
                    < u32::MAX
            }),
        ensures
            final(self).wf(),
            final(self).is_at(*old(self)),
            final(self).changes == old(self).changes,
            ({
                let m = old(self).game.model();
                let token = cookie_of(texts(cookies@), old(self).cookie@);
                exists|number: u128, name: Seq<char>|
                    {
                        let m1 = #[trigger] welcomed(m, token, token_of(number), name, now);
                        &&& is_generated(m.players, name)
                        &&& is_free_name(m.players, name)
                        &&& reply_model(r) == welcome(m, token, token_of(number))
                        &&& final(self).game.model() == match reply_model(r) {
                            Some((id, _)) => connected(m1, id, now),
                            None => m1,
                        }
                    }
            }),
    {
        let kept = token(cookies, self.cookie);
        let ghost m = self.game.model();
        let ghost t = cookie_of(texts(cookies@), self.cookie@);
        proof {
            self.game.wf_is_valid();
        }
        let joined = self.game.join(
            match &kept {
                Some(t) => Some(t.as_str()),
                None => None,
            },
            now,
        );
        if let Some((id, _)) = &joined {
            proof {
                let (number, name) = choose|number: u128, name: Seq<char>|
                    {
                        &&& is_generated(m.players, name)
                        &&& is_free_name(m.players, name)
                        &&& self.game.model() == #[trigger] welcomed(
                            m,
                            t,
                            token_of(number),
                            name,
                            now,
                        )
                        &&& reply_model(joined) == welcome(m, t, token_of(number))
                    };
                if is_new(m, t) {
                    joined_is_valid(m, token_of(number), name, now);
                }
            }
            self.game.connect(*id, now);
        }
        joined
    }

    /// A stream ends. In a fast room the last one who hadn't answered may just
    /// have left.
    pub fn leave(&mut self, id: PlayerId, now: u64)
        requires
            old(self).wf(),
            knows(old(self).game.model().players, id) ==> player(
                old(self).game.model().players,
                id,
            ).connections > 0,
            can_move(
                disconnected(old(self).game.model(), id, now),
                old(self).changes,
                old(self).fast,
                now,
            ),
        ensures
            final(self).wf(),
            final(self).is_at(*old(self)),
            has_moved(
                disconnected(old(self).game.model(), id, now),
                old(self).changes,
                old(self).fast,
                now,
                final(self).game.model(),
                final(self).changes,
            ),
    {
        self.game.disconnect(id, now);
        self.advance(now);
    }

    /// What a player's stream sends: the game as they see it.
    pub fn fragment(&self, id: PlayerId, now: u64) -> (r: String)
        requires
            self.wf(),
        ensures
            r@ == game_html(shown(self.game.model(), Some(id), now), self.urls.answer@),
    {
        proof {
            self.game.wf_is_valid();
            shown_can_be_rendered(self.game.model(), Some(id), now);
        }
        html::game(&self.game.view(id, now), &self.urls).into_string()
    }

    /// The livestream screen. Watching doesn't make you a player: no cookie,
    /// and it doesn't count as online.
    pub fn spectate(&self, join: &str, slide: Option<Option<&Slide>>, now: u64) -> (r: Reply)
        requires
            self.wf(),
        ensures
            r.model() == spectate_reply(self.game.model(), self.urls, join@, slide, now),
    {
        proof {
            self.game.wf_is_valid();
            shown_can_be_rendered(self.game.model(), None, now);
        }
        let page = html::spectate_page(
            &self.game.spectate(now),
            self.game.tally(),
            &self.urls,
            join,
            slide,
        ).into_string();
        html_response(page)
    }

    /// What the spectator screen's stream sends first, and on every phase
    /// change: the whole view, with the count that it shows.
    pub fn refresh(&self, now: u64) -> (r: (Message, Tally))
        requires
            self.wf(),
        ensures
            r.0.event is None,
            r.0.data@ == spectate_game_html(
                shown(self.game.model(), None, now),
                answered(self.game.model().players),
                online(self.game.model().players),
            ),
            r.1.answered == answered(self.game.model().players),
            r.1.online == online(self.game.model().players),
    {
        proof {
            self.game.wf_is_valid();
            shown_can_be_rendered(self.game.model(), None, now);
        }
        let tally = self.game.tally();
        let data = html::spectate_game(&self.game.spectate(now), tally).into_string();
        (Message { event: None, data }, tally)
    }

    /// What the spectator screen's stream does when it is woken: the whole
    /// view on every phase change, in between a `tally` event whenever the
    /// number of answers or players changes, and a `slide` event with each new
    /// break slide. `last` is the count that the screen shows.
    pub fn woken(&self, last: Tally, wake: Wake, slide: Option<&Slide>) -> (r: Step)
        requires
            self.wf(),
        ensures
            match wake {
                Wake::Changed => r is Refresh,
                Wake::Closed => r is End,
                Wake::Slide => r matches Step::Send(message, tally) && message.event == Some(
                    "slide",
                ) && message.data@ == slide_shown_html(slide) && tally == last,
                Wake::Time => {
                    let m = self.game.model();
                    if last.answered == answered(m.players) && last.online == online(m.players) {
                        r is Wait
                    } else {
                        r matches Step::Send(message, tally) && message.event == Some("tally")
                            && message.data@ == tally_text_html(
                            answered(m.players),
                            online(m.players),
                            shown(m, None, 0).phase,
                        ) && tally.answered == answered(m.players) && tally.online == online(
                            m.players,
                        )
                    }
                },
            },
    {
        match wake {
            Wake::Changed => Step::Refresh,
            Wake::Closed => Step::End,
            Wake::Slide => Step::Send(
                Message { event: Some("slide"), data: html::slide(slide).into_string() },
                last,
            ),
            Wake::Time => {
                let tally = self.game.tally();
                if tally.answered == last.answered && tally.online == last.online {
                    Step::Wait
                } else {
                    let data = html::tally_text(tally, &self.game.spectate(0).phase);
                    Step::Send(Message { event: Some("tally"), data }, tally)
                }
            },
        }
    }

    /// Someone picks a choice, and the game stays where it is.
    pub fn pick(&mut self, cookies: &Vec<String>, seq: u64, choice: usize, now: u64) -> (r: Reply)
        requires
            old(self).wf(),
        ensures
            final(self).wf(),
            final(self).is_at(*old(self)),
            final(self).changes == old(self).changes,
            ({
                let m = old(self).game.model();
                let token = cookie_of(texts(cookies@), old(self).cookie@);
                &&& r.model() == answer_reply(m, token, seq, choice, now)
                &&& final(self).game.model() == after_pick(m, token, seq, choice, now)
            }),
    {
        let kept = token(cookies, self.cookie);
        let id = match &kept {
            Some(t) => match self.game.player_for(t.as_str()) {
                Some(id) => id,
                None => {
                    return plain(401, "unknown player");
                },
            },
            None => {
                return plain(401, "unknown player");
            },
        };
        proof {
            self.game.wf_is_valid();
        }
        let ghost m = self.game.model();
        let result = self.game.answer(id, seq, choice, now);
        let ghost m1 = self.game.model();
        proof {
            if result is Ok {
                with_player_changes_one(
                    m.players,
                    id,
                    |p: PlayerModel| with_pick(p, choice, now),
                );
                assert(pick_of(m1.players, Some(id)) is Some);
            }
        }
        let points: u64 = match self.game.view(id, now).phase {
            PhaseView::Question { pick_points: Some(p), .. } => p,
            _ => 0,
        };
        match result {
            // What the pick earns if it's right, so the page can show it.
            Ok(()) => {
                let reply = Reply {
                    status: 204,
                    headers: vec![("x-points", decimal_string(points))],
                    body: None,
                };
                assert(reply.model().headers =~= seq![
                    ("x-points"@, decimal(pick_worth(m1, id) as nat)),
                ]);
                reply
            },
            Err(AnswerError::Closed) => plain(409, "question closed"),
            Err(AnswerError::InvalidChoice) => plain(400, "no such choice"),
        }
    }

    /// Someone picks a choice. In a fast room this may have been the last
    /// answer missing.
    pub fn answer(&mut self, cookies: &Vec<String>, seq: u64, choice: usize, now: u64) -> (r: Reply)
        requires
            old(self).wf(),
            ({
                let token = cookie_of(texts(cookies@), old(self).cookie@);
                is_known(old(self).game.model(), token) ==> can_move(
                    after_pick(old(self).game.model(), token, seq, choice, now),
                    old(self).changes,
                    old(self).fast,
                    now,
                )
            }),
        ensures
            final(self).wf(),
            final(self).is_at(*old(self)),
            ({
                let m = old(self).game.model();
                let token = cookie_of(texts(cookies@), old(self).cookie@);
                &&& r.model() == answer_reply(m, token, seq, choice, now)
                &&& if is_known(m, token) {
                    has_moved(
                        after_pick(m, token, seq, choice, now),
                        old(self).changes,
                        old(self).fast,
                        now,
                        final(self).game.model(),
                        final(self).changes,
                    )
                } else {
                    final(self).game.model() == m && final(self).changes == old(self).changes
                }
            }),
    {
        let known = match token(cookies, self.cookie) {
            Some(t) => self.game.player_for(t.as_str()).is_some(),
            None => false,
        };
        let reply = self.pick(cookies, seq, choice, now);
        if known {
            self.advance(now);
        }
        reply
    }
}

/// The spectator screen's QR code, as an image of its own.
pub fn qr(join: &str) -> (r: Reply)
    ensures
        r.model() == match qr_matrix(join@) {
            Some((width, dark)) => file_reply(
                "image/svg+xml"@,
                CHECK_AGAIN@,
                svg_html(width, dark),
            ),
            None => bare_reply(404),
        },
{
    match html::qr_svg(join) {
        Some(svg) => static_file("image/svg+xml", CHECK_AGAIN, svg),
        None => not_found(),
    }
}

// Slides

/// The break slides of the spectator screen.
pub struct Slides {
    /// Everything from the last scan; any of these may be requested.
    pub all: Vec<Arc<Slide>>,
    pub shown: Option<Arc<Slide>>,
}

/// The name of what is shown.
pub open spec fn shown_name(shown: Option<Arc<Slide>>) -> Option<Seq<char>> {
    match shown {
        Some(s) => Some(s.name@),
        None => None,
    }
}

/// What slides are sorted by, for the one that is shown.
pub open spec fn shown_key(shown: Option<Arc<Slide>>) -> Option<Key> {
    match shown {
        Some(s) => Some(s.key()),
        None => None,
    }
}

/// The place of the first slide of this name, or the end.
pub open spec fn named(all: Seq<Arc<Slide>>, name: Seq<char>) -> nat
    decreases all.len(),
{
    if all.len() == 0 || all[0].name@ == name {
        0
    } else {
        1 + named(all.skip(1), name)
    }
}

impl Slides {
    /// No slides yet.
    pub fn new() -> (r: Self)
        ensures
            r.all@.len() == 0,
            r.shown is None,
    {
        Slides { all: Vec::new(), shown: None }
    }

    /// Takes over a scan and moves on to the next slide. Returns whether the
    /// screen has to change.
    pub fn update(&mut self, all: Vec<Arc<Slide>>) -> (r: bool)
        ensures
            final(self).all@ == all@,
            final(self).shown == following(all@, shown_key(old(self).shown)),
            r == (shown_name(final(self).shown) != shown_name(old(self).shown)),
    {
        let next = match &self.shown {
            Some(s) => next(all.as_slice(), Some(&**s)),
            None => next(all.as_slice(), None),
        };
        let changed = match (&next, &self.shown) {
            (Some(a), Some(b)) => !same(a.name.as_str(), b.name.as_str()),
            (None, None) => false,
            _ => true,
        };
        self.all = all;
        self.shown = next;
        changed
    }

    /// The slide of this name.
    pub fn find(&self, name: &str) -> (r: Option<Arc<Slide>>)
        ensures
            r == (if named(self.all@, name@) < self.all@.len() {
                Some(self.all@[named(self.all@, name@) as int])
            } else {
                None
            }),
            r is Some ==> r->0.name@ == name@,
            r is None ==> forall|i: int|
                0 <= i < self.all@.len() ==> (#[trigger] self.all@[i]).name@ != name@,
    {
        let mut i: usize = 0;
        assert(self.all@.skip(0) =~= self.all@);
        while i < self.all.len()
            invariant
                i <= self.all@.len(),
                named(self.all@, name@) == i + named(self.all@.skip(i as int), name@),
                forall|k: int| 0 <= k < i ==> (#[trigger] self.all@[k]).name@ != name@,
            decreases self.all@.len() - i,
        {
            assert(self.all@.skip(i as int).skip(1) =~= self.all@.skip(i + 1));
            if same(self.all[i].name.as_str(), name) {
                return Some(self.all[i].clone());
            }
            i += 1;
        }
        None
    }
}

// What the browser gives back

/// A text that can stand in a cookie: no separators, no white space.
pub open spec fn is_word(s: Seq<char>) -> bool {
    forall|i: int|
        0 <= i < s.len() ==> (#[trigger] s[i]) != ';' && s[i] != '=' && !is_space(s[i])
}

/// A cookie is read back as it was set, whatever follows it.
pub proof fn a_cookie_is_read_back(name: Seq<char>, value: Seq<char>, tail: Seq<char>)
    requires
        is_word(name),
        is_word(value),
        tail.len() == 0 || tail[0] == ';',
    ensures
        cookie_in(name + "="@ + value + tail, name) == Some(value),
{
    reveal_strlit("=");
    let pair = name + "="@ + value;
    let header = pair + tail;
    assert(forall|i: int| 0 <= i < name.len() ==> pair[i] == name[i]);
    assert(forall|i: int|
        0 <= i < value.len() ==> #[trigger] pair[name.len() + 1 + i] == value[i]);
    assert forall|i: int| 0 <= i < pair.len() implies (#[trigger] pair[i]) != ';' && !is_space(
        pair[i],
    ) by {
        if i < name.len() {
            assert(name[i] != ';');
        } else if i > name.len() {
            assert(value[i - name.len() - 1] != ';');
        }
    }
    until_after(pair, tail, ';');
    assert(header.take(pair.len() as int) =~= pair);
    trim_keeps(pair);
    assert(pair =~= name + ("="@ + value));
    until_after(name, "="@ + value, '=');
    assert(pair.take(name.len() as int) =~= name);
    assert(pair.skip(name.len() as int + 1) =~= value);
}

/// White space before a header makes no difference.
proof fn space_is_skipped(rest: Seq<char>, name: Seq<char>)
    ensures
        cookie_in(seq![' '] + rest, name) == cookie_in(rest, name),
{
    let spaced = seq![' '] + rest;
    let end = until(rest, ';') as int;
    until_is_first(rest, ';');
    assert(until(spaced, ';') == end + 1) by {
        assert(spaced.skip(1) =~= rest);
    }
    assert(spaced.take(end + 1) =~= seq![' '] + rest.take(end));
    trim_skips(' ', rest.take(end));
    if end < rest.len() {
        assert(spaced.skip(end + 2) =~= rest.skip(end + 1));
    }
}

/// Other cookies before it make no difference.
pub proof fn other_cookies_are_skipped(other: Seq<char>, rest: Seq<char>, name: Seq<char>)
    requires
        forall|i: int| 0 <= i < other.len() ==> (#[trigger] other[i]) != ';',
        pair_value(trim(other), name) is None,
    ensures
        cookie_in(other + "; "@ + rest, name) == cookie_in(rest, name),
{
    let header = other + "; "@ + rest;
    let n = other.len() as int;
    assert(until(header, ';') == n && header.take(n) == other && n < header.len()
        && header.skip(n + 1) == seq![' '] + rest) by {
        reveal_strlit("; ");
        let tail = "; "@ + rest;
        assert(header =~= other + tail);
        until_after(other, tail, ';');
        assert(header.take(n) =~= other);
        assert(header.skip(n + 1) =~= seq![' '] + rest);
    }
    space_is_skipped(rest, name);
}

/// The pair that a new player's browser is told to keep gives back the token,
/// and different players have different tokens.
pub proof fn tokens_come_back(name: Seq<char>, number: u128, other: u128)
    requires
        is_word(name),
    ensures
        cookie_in(cookie_text(name, token_of(number)), name) == Some(token_of(number)),
        token_of(number) == token_of(other) ==> number == other,
{
    let token = token_of(number);
    assert(sixteens(32) == 0x1_0000_0000_0000_0000_0000_0000_0000_0000) by {
        reveal_with_fuel(sixteens, 33);
    }
    hex_padded_is_injective(number as nat, other as nat, 32);
    assert forall|i: int| 0 <= i < token.len() implies (#[trigger] token[i]) != ';' && token[i]
        != '=' && !is_space(token[i]) by {
    }
    reveal_strlit("; Path=/; Max-Age=");
    let tail = "; Path=/; Max-Age="@ + decimal(COOKIE_MAX_AGE as nat)
        + "; HttpOnly; SameSite=Strict"@;
    assert(cookie_text(name, token) =~= name + "="@ + token + tail);
    a_cookie_is_read_back(name, token, tail);
}

/// Whoever sends back the cookie of their first visit is the player they
/// became then.
pub proof fn a_new_player_is_recognised(
    m: GameModel,
    cookie: Seq<char>,
    number: u128,
    name: Seq<char>,
    now: u64,
)
    requires
        is_word(cookie),
    ensures
        ({
            let after = joined(m, token_of(number), name, now);
            let sent = cookie_text(cookie, token_of(number));
            player_behind(after, cookie_of(seq![sent], cookie)) == Some(m.next_id)
        }),
{
    tokens_come_back(cookie, number, number);
    let sent = cookie_text(cookie, token_of(number));
    assert(seq![sent][0] == sent);
}

/// Someone who plays in both rooms keeps both players: each room reads its
/// own token.
pub proof fn rooms_keep_their_own_players(normal: Seq<char>, fast: Seq<char>)
    requires
        is_word(normal),
        is_word(fast),
    ensures
        ({
            let header = NORMAL_COOKIE@ + "="@ + normal + "; "@ + (FAST_COOKIE@ + "="@ + fast);
            &&& cookie_in(header, NORMAL_COOKIE@) == Some(normal)
            &&& cookie_in(header, FAST_COOKIE@) == Some(fast)
        }),
{
    reveal_strlit("nixcon_quiz");
    reveal_strlit("nixcon_quiz_fast");
    reveal_strlit("=");
    reveal_strlit("; ");
    let first = NORMAL_COOKIE@ + "="@ + normal;
    let second = FAST_COOKIE@ + "="@ + fast;
    let header = first + "; "@ + second;
    assert(is_word(NORMAL_COOKIE@));
    assert(is_word(FAST_COOKIE@));
    assert(header =~= first + ("; "@ + second));
    a_cookie_is_read_back(NORMAL_COOKIE@, normal, "; "@ + second);
    assert forall|i: int| 0 <= i < first.len() implies (#[trigger] first[i]) != ';' && !is_space(
        first[i],
    ) by {
        let n = NORMAL_COOKIE@.len();
        if i < n {
            assert(first[i] == NORMAL_COOKIE@[i]);
        } else if i > n {
            assert(first[i] == normal[i - n - 1]);
        }
    }
    trim_keeps(first);
    assert(first =~= NORMAL_COOKIE@ + ("="@ + normal));
    until_after(NORMAL_COOKIE@, "="@ + normal, '=');
    assert(first.take(NORMAL_COOKIE@.len() as int) =~= NORMAL_COOKIE@);
    assert(NORMAL_COOKIE@.len() != FAST_COOKIE@.len());
    other_cookies_are_skipped(first, second, FAST_COOKIE@);
    assert(second + Seq::<char>::empty() =~= second);
    a_cookie_is_read_back(FAST_COOKIE@, fast, Seq::empty());
}

/// Different states have different names, so a page never takes a new state
/// for the one it shows.
pub proof fn versions_differ(boot: u64, changes: u64, boot2: u64, changes2: u64)
    requires
        version_text(boot, changes) == version_text(boot2, changes2),
    ensures
        boot == boot2 && changes == changes2,
{
    reveal_strlit("-");
    let a = hex(boot as nat);
    let b = hex(boot2 as nat);
    hex_is_injective(boot as nat, boot2 as nat);
    hex_is_injective(boot2 as nat, boot as nat);
    let s = version_text(boot, changes);
    assert(s =~= a + ("-"@ + decimal(changes as nat)));
    assert(s =~= b + ("-"@ + decimal(changes2 as nat)));
    until_after(a, "-"@ + decimal(changes as nat), '-');
    until_after(b, "-"@ + decimal(changes2 as nat), '-');
    assert(s.take(a.len() as int) =~= a);
    assert(s.take(b.len() as int) =~= b);
    assert(s.skip(a.len() as int + 1) =~= decimal(changes as nat));
    assert(s.skip(b.len() as int + 1) =~= decimal(changes2 as nat));
    decimal_is_injective(changes as nat, changes2 as nat);
}

// What is replied

/// Whoever sends an answer without the token of a player is told so, and
/// nothing changes. A player is told what a right pick earns, with no body;
/// that the question is closed; or that there is no such choice.
pub proof fn what_an_answer_is_told(
    m: GameModel,
    token: Option<Seq<char>>,
    seq: u64,
    choice: usize,
    now: u64,
)
    requires
        is_valid(m),
    ensures
        ({
            let r = answer_reply(m, token, seq, choice, now);
            let next = after_pick(m, token, seq, choice, now);
            if token is None || !m.tokens.contains_key(token->0) {
                &&& r.status == 401 && r.headers.len() == 0 && r.body == Some("unknown player"@)
                &&& next == m
            } else {
                let id = m.tokens[token->0];
                &&& next == after_answer(m, id, seq, choice, now)
                &&& match answer_result(m, id, seq, choice, now) {
                    Ok(_) => {
                        let before = player(m.players, id).answer;
                        let at = if before is Some && before->0.choice == choice {
                            before->0.at
                        } else {
                            now
                        };
                        &&& r.status == 204 && r.body is None && r.headers.len() == 1
                        &&& r.headers[0].0 == "x-points"@
                        &&& r.headers[0].1 == decimal(
                            worth(m.phase->started, m.phase->Question_ends, at) as nat,
                        )
                    },
                    Err(AnswerError::Closed) => r.status == 409 && r.headers.len() == 0 && r.body
                        == Some("question closed"@),
                    Err(AnswerError::InvalidChoice) => r.status == 400 && r.headers.len() == 0
                        && r.body == Some("no such choice"@),
                }
            }
        }),
{
    if is_known(m, token) {
        let id = m.tokens[token->0];
        if answer_result(m, id, seq, choice, now) is Ok {
            what_an_answer_changes(m, id, seq, choice, now);
        }
    }
}

/// Whoever loads the page gets it as the player they are, not to be stored.
/// Only someone new is given a cookie: their token under the name of the room,
/// for two weeks, out of the reach of scripts and other sites. Where the game
/// is full that is all they are told.
pub proof fn what_a_visitor_gets(
    m: GameModel,
    urls: Urls,
    cookie: Seq<char>,
    version: Seq<char>,
    id: PlayerId,
    token: Option<Seq<char>>,
    now: u64,
)
    ensures
        ({
            let r = index_reply(m, urls, cookie, version, Some((id, token)), now);
            let n = if token is Some {
                4nat
            } else {
                3nat
            };
            &&& r.status == 200
            &&& r.body == Some(
                page_html(shown(m, Some(id), now), urls.events@, urls.answer@, version),
            )
            &&& r.headers.len() == n
            &&& r.headers[0] == ("content-type"@, "text/html; charset=utf-8"@)
            &&& r.headers[1] == ("cache-control"@, "no-store"@)
            &&& r.headers[2] == (
                "content-security-policy"@,
                "default-src 'self'; frame-ancestors 'none'"@,
            )
            &&& token is Some ==> r.headers[3] == (
                "set-cookie"@,
                cookie + "="@ + token->0 + "; Path=/; Max-Age="@ + decimal(1209600)
                    + "; HttpOnly; SameSite=Strict"@,
            )
        }),
        ({
            let r = index_reply(m, urls, cookie, version, None, now);
            r.status == 503 && r.headers.len() == 0 && r.body == Some("the quiz is full"@)
        }),
{
}

/// The livestream is the game as nobody in particular sees it, with the
/// numbers of those who answered and who are online. It sets no cookie.
pub proof fn what_the_livestream_gets(
    m: GameModel,
    urls: Urls,
    join: Seq<char>,
    slide: Option<Option<&Slide>>,
    now: u64,
)
    ensures
        ({
            let r = spectate_reply(m, urls, join, slide, now);
            &&& r.status == 200 && r.headers.len() == 3
            &&& forall|i: int|
                0 <= i < r.headers.len() ==> (#[trigger] r.headers[i]).0 != "set-cookie"@
            &&& r.body == Some(
                spectate_page_html(
                    shown(m, None, now),
                    m.players.filter(|p: PlayerModel| p.answer is Some).len(),
                    m.players.filter(|p: PlayerModel| p.connections > 0).len(),
                    urls.spectate_events@,
                    urls.qr@,
                    join,
                    slide,
                ),
            )
        }),
{
    who_is_counted(m.players, 0, 0);
    reveal_strlit("set-cookie");
    reveal_strlit("content-type");
    reveal_strlit("cache-control");
    reveal_strlit("content-security-policy");
    assert("set-cookie"@.len() == 10 && "content-type"@.len() == 12 && "cache-control"@.len() == 13
        && "content-security-policy"@.len() == 23);
}

/// Players join under the public address, or else the host that was asked, or
/// else this machine: followed by the page of the room, with no slash too many
/// between.
pub proof fn where_players_join(url: Seq<char>, host: Seq<char>, page: Seq<char>)
    ensures
        join_address(Some(url), Some(host), page) == without_slashes(url) + page,
        join_address(Some(url), None, page) == without_slashes(url) + page,
        host.len() > 0 && host.last() != '/' ==> join_address(None, Some(host), page) == "http://"@
            + host + page,
        join_address(None, None, page) == "http://"@ + "localhost"@ + page,
{
    reveal_strlit("/");
    reveal_strlit("localhost");
    slash_is_dropped("http://"@ + "localhost"@);
    if host.len() > 0 && host.last() != '/' {
        assert(("http://"@ + host).last() == host.last());
        slash_is_dropped("http://"@ + host);
    }
}

proof fn slash_is_dropped(base: Seq<char>)
    requires
        base.len() > 0,
        base.last() != '/',
    ensures
        without_slashes(base + "/"@) == base,
{
    reveal_strlit("/");
    assert((base + "/"@).drop_last() =~= base);
    assert(without_slashes(base) == base);
}

/// A cookie is a name without an equals sign, one such sign, and the value.
pub proof fn what_a_cookie_is(pair: Seq<char>, name: Seq<char>, value: Seq<char>)
    ensures
        pair_value(pair, name) == Some(value) <==> pair == name + "="@ + value && forall|i: int|
            0 <= i < name.len() ==> (#[trigger] name[i]) != '=',
{
    reveal_strlit("=");
    until_is_first(pair, '=');
    let at = until(pair, '=') as int;
    if pair_value(pair, name) == Some(value) {
        assert(pair =~= name + "="@ + value);
        assert forall|i: int| 0 <= i < name.len() implies (#[trigger] name[i]) != '=' by {
            assert(pair[i] == name[i]);
        }
    }
    if pair == name + "="@ + value && forall|i: int|
        0 <= i < name.len() ==> (#[trigger] name[i]) != '=' {
        assert(pair =~= name + ("="@ + value));
        until_after(name, "="@ + value, '=');
        assert(pair.take(name.len() as int) =~= name);
        assert(pair.skip(name.len() as int + 1) =~= value);
    }
}

/// The first header that holds the cookie decides.
pub proof fn the_first_header_decides(headers: Seq<Seq<char>>, name: Seq<char>, i: int)
    requires
        0 <= i <= headers.len(),
        forall|j: int| 0 <= j < i ==> cookie_in(#[trigger] headers[j], name) is None,
    ensures
        i < headers.len() && cookie_in(headers[i], name) is Some ==> cookie_of(headers, name)
            == cookie_in(headers[i], name),
        i == headers.len() ==> cookie_of(headers, name) is None,
    decreases i,
{
    if i > 0 {
        let rest = headers.skip(1);
        assert(cookie_in(headers[0], name) is None);
        assert forall|j: int| 0 <= j < i - 1 implies cookie_in(
            #[trigger] rest[j],
            name,
        ) is None by {
            assert(rest[j] == headers[j + 1]);
        }
        the_first_header_decides(rest, name, i - 1);
    }
}

/// A room moves on exactly when its game is due, to the phase that follows,
/// and counts that as one change. Otherwise nothing changes.
pub proof fn rooms_move_on_when_due(
    m: GameModel,
    changes: u64,
    fast: bool,
    now: u64,
    m2: GameModel,
    changes2: u64,
)
    requires
        has_moved(m, changes, fast, now, m2, changes2),
    ensures
        is_due(m, fast, now) ==> {
            &&& changes2 == changes + 1
            &&& match m.phase {
                Phase::Question { .. } => m2.phase is Reveal,
                Phase::Reveal { .. } => if m.number >= m.settings.round_questions {
                    m2.phase is Leaderboard
                } else {
                    m2.phase is Question
                },
                Phase::Leaderboard { .. } => m2.phase is Question,
            }
        },
        !is_due(m, fast, now) ==> m2 == m && changes2 == changes,
{
}

/// A file says what it is and how long it may be kept.
pub proof fn a_file_says_what_it_is(content_type: Seq<char>, cache: Seq<char>, text: Seq<char>)
    ensures
        ({
            let r = file_reply(content_type, cache, text);
            &&& r.status == 200 && r.body == Some(text)
            &&& r.headers.len() == 2
            &&& r.headers[0] == ("content-type"@, content_type)
            &&& r.headers[1] == ("cache-control"@, cache)
        }),
{
}

/// Of several slides of one name the first is found.
pub proof fn the_first_slide_of_a_name(all: Seq<Arc<Slide>>, name: Seq<char>)
    ensures
        named(all, name) <= all.len(),
        named(all, name) < all.len() ==> all[named(all, name) as int].name@ == name,
        forall|i: int| 0 <= i < named(all, name) ==> (#[trigger] all[i]).name@ != name,
    decreases all.len(),
{
    if all.len() > 0 && all[0].name@ != name {
        let rest = all.skip(1);
        the_first_slide_of_a_name(rest, name);
        assert forall|i: int| 0 <= i < named(all, name) implies (#[trigger] all[i]).name@
            != name by {
            if i > 0 {
                assert(rest[i - 1] == all[i]);
            }
        }
    }
}

/// Whether a text ends in another.
pub open spec fn ends_in(s: Seq<char>, end: Seq<char>) -> bool {
    s.len() >= end.len() && s.skip(s.len() - end.len()) == end
}

/// The files of others are what their names say: scripts, fonts and images.
pub proof fn files_are_what_their_names_say(file: Seq<char>)
    requires
        vendor_type(file) is Some,
    ensures
        vendor_type(file)->0 == if ends_in(file, ".js"@) {
            "text/javascript; charset=utf-8"@
        } else if ends_in(file, ".woff2"@) {
            "font/woff2"@
        } else if ends_in(file, ".svg"@) {
            "image/svg+xml"@
        } else {
            "image/png"@
        },
{
    reveal_strlit(".js");
    reveal_strlit(".woff2");
    reveal_strlit(".svg");
    reveal_strlit("htmx-2.0.11.min.js");
    reveal_strlit("htmx-ext-sse-2.2.4.min.js");
    reveal_strlit("ibm-plex-mono-latin-400-normal.woff2");
    reveal_strlit("ibm-plex-mono-latin-600-normal.woff2");
    reveal_strlit("ibm-plex-mono-latin-ext-400-normal.woff2");
    reveal_strlit("ibm-plex-mono-latin-ext-600-normal.woff2");
    reveal_strlit("press-start-2p-latin-400-normal.woff2");
    reveal_strlit("press-start-2p-latin-ext-400-normal.woff2");
    reveal_strlit("nixcon-2026-icon.svg");
    reveal_strlit("nixcon-2026-cloud.png");
    let n = file.len() as int;
    if file == "htmx-2.0.11.min.js"@ || file == "htmx-ext-sse-2.2.4.min.js"@ {
        assert(file.skip(n - 3) =~= ".js"@);
    } else {
        assert(file.skip(n - 3)[2] == file[n - 1]);
        assert(".js"@[2] == 's');
        if file == "nixcon-2026-icon.svg"@ {
            assert(file.skip(n - 4) =~= ".svg"@);
            assert(file.skip(n - 6)[5] == 'g' && ".woff2"@[5] == '2');
        } else if file == "nixcon-2026-cloud.png"@ {
            assert(file.skip(n - 6)[5] == 'g' && ".woff2"@[5] == '2');
            assert(file.skip(n - 4)[1] == 'p' && ".svg"@[1] == 's');
        } else {
            assert(file.skip(n - 6) =~= ".woff2"@);
        }
    }
}

/// The scripts that every page loads are there.
pub proof fn the_scripts_of_a_page_are_there(file: Seq<char>)
    requires
        "/vendor/"@ + file == html::HTMX@ || "/vendor/"@ + file == html::HTMX_SSE@,
    ensures
        vendor_type(file) == Some("text/javascript; charset=utf-8"@),
{
    reveal_strlit("/vendor/");
    reveal_strlit("/vendor/htmx-2.0.11.min.js");
    reveal_strlit("/vendor/htmx-ext-sse-2.2.4.min.js");
    reveal_strlit("htmx-2.0.11.min.js");
    reveal_strlit("htmx-ext-sse-2.2.4.min.js");
    let whole = "/vendor/"@ + file;
    assert(file =~= whole.skip(8));
    if whole == html::HTMX@ {
        assert(file =~= "htmx-2.0.11.min.js"@);
    } else {
        assert(file =~= "htmx-ext-sse-2.2.4.min.js"@);
    }
}

} // verus!
