//! Server-rendered HTML. The page is rendered once on load; afterwards the
//! server pushes a fresh `game` fragment over Server-Sent Events whenever the
//! phase changes and htmx swaps it in. Answers are a plain form of radio
//! buttons that htmx posts on every change.
//!
//! The spectator screen for the livestream is rendered from the same views,
//! seen by nobody in particular, in a 16:9 layout with a QR code to join and,
//! when there are any, break slides filling the stage with the game beside.
//!
//! Every function has a counterpart that says what it writes, under its own
//! name with `_html` at the end.

use crate::count::count_bound;
use crate::game::{points, standing_models, Me, PhaseView, PlayerId, Standing, Tally, View};
use crate::quiz::{is_playable, texts};
use crate::slides::{fnv1a, fnv1a_of, Slide};
use crate::state::{
    has_answered, is_sound, is_valid, knows, shown, total, GameModel, MeModel, PhaseViewModel,
    PlayerModel, StandingModel, ViewModel, BASE_POINTS, SPEED_POINTS,
};
use crate::text::{chars_of, decimal, push_decimal, same_chars, string_of};
use crate::upkeep::{player_place, tally_adds_up};
use vstd::prelude::*;
use vstd::utf8::encode_utf8;
use vstd::view::View as _;

verus! {

pub const HTMX: &'static str = "/vendor/htmx-2.0.11.min.js";

pub const HTMX_SSE: &'static str = "/vendor/htmx-ext-sse-2.2.4.min.js";

pub const LETTERS: [char; 6] = ['A', 'B', 'C', 'D', 'E', 'F'];

/// Where one game lives. The normal quiz and the fast one each have their
/// own pages, streams and answer endpoint.
#[derive(Clone, Copy)]
pub struct Urls {
    pub page: &'static str,
    pub spectate: &'static str,
    pub qr: &'static str,
    pub events: &'static str,
    pub spectate_events: &'static str,
    pub answer: &'static str,
}

/// A piece of HTML.
pub struct Markup(String);

impl vstd::view::View for Markup {
    type V = Seq<char>;

    closed spec fn view(&self) -> Seq<char> {
        self.0@
    }
}

impl Markup {
    /// The HTML as text.
    pub fn into_string(self) -> (r: String)
        ensures
            r@ == self@,
    {
        self.0
    }

    fn text(&self) -> (r: &str)
        ensures
            r@ == self@,
    {
        self.0.as_str()
    }
}

// Escaping

/// One character as HTML text.
pub open spec fn escaped_char(c: char) -> Seq<char> {
    if c == '&' {
        "&amp;"@
    } else if c == '<' {
        "&lt;"@
    } else if c == '>' {
        "&gt;"@
    } else if c == '"' {
        "&quot;"@
    } else {
        seq![c]
    }
}

/// A text as HTML text: the characters that mean something in HTML are
/// written out, all others stand for themselves.
pub open spec fn escaped(text: Seq<char>) -> Seq<char>
    decreases text.len(),
{
    if text.len() == 0 {
        Seq::empty()
    } else {
        escaped(text.drop_last()) + escaped_char(text.last())
    }
}

/// What was escaped cannot end an attribute or begin an element.
pub proof fn escaped_text_is_inert(text: Seq<char>)
    ensures
        forall|i: int|
            0 <= i < escaped(text).len() ==> {
                let c = #[trigger] escaped(text)[i];
                c != '<' && c != '>' && c != '"'
            },
    decreases text.len(),
{
    reveal_strlit("&amp;");
    reveal_strlit("&lt;");
    reveal_strlit("&gt;");
    reveal_strlit("&quot;");
    if text.len() > 0 {
        let before = escaped(text.drop_last());
        let last = escaped_char(text.last());
        escaped_text_is_inert(text.drop_last());
        assert forall|i: int| 0 <= i < last.len() implies (#[trigger] last[i]) != '<' && last[i]
            != '>' && last[i] != '"' by {
        }
        assert forall|i: int| 0 <= i < escaped(text).len() implies {
            let c = #[trigger] escaped(text)[i];
            c != '<' && c != '>' && c != '"'
        } by {
            if i < before.len() {
                assert(escaped(text)[i] == before[i]);
            } else {
                assert(escaped(text)[i] == last[i - before.len()]);
            }
        }
    }
}

/// `maud::Render::render_to` for `str`: appends the text with `&`, `<`, `>`
/// and `"` escaped and every other character as it is.
#[verifier::external_body]
fn push_escaped(out: &mut String, text: &str)
    ensures
        final(out)@ == old(out)@ + escaped(text@),
{
    maud::Render::render_to(text, out)
}

// Small pieces

pub open spec fn phase_name_html(phase: PhaseViewModel) -> Seq<char> {
    match phase {
        PhaseViewModel::Question { .. } => "question"@,
        PhaseViewModel::Reveal { .. } => "reveal"@,
        PhaseViewModel::Leaderboard { .. } => "leaderboard"@,
    }
}

fn phase_name(phase: &PhaseView) -> (r: &'static str)
    ensures
        r@ == phase_name_html(phase.content()),
{
    match phase {
        PhaseView::Question { .. } => "question",
        PhaseView::Reveal { .. } => "reveal",
        PhaseView::Leaderboard { .. } => "leaderboard",
    }
}

pub open spec fn head_html(title: Seq<char>) -> Seq<char> {
    "<head><meta charset=\"utf-8\"><meta name=\"viewport\" content=\"width=device-width, initial-scale=1\"><meta name=\"color-scheme\" content=\"light\"><meta name=\"htmx-config\" content=\"{&quot;includeIndicatorStyles&quot;:false,&quot;allowEval&quot;:false,&quot;attributesToSettle&quot;:[&quot;class&quot;]}\"><title>"@
        + escaped(title) + "</title><link rel=\"stylesheet\" href=\"/style.css\"><script src=\""@
        + HTMX@ + "\" defer></script><script src=\""@ + HTMX_SSE@
        + "\" defer></script><script src=\"/clock.js\" defer></script></head>"@
}

fn head(title: &str) -> (r: Markup)
    ensures
        r@ == head_html(title@),
{
    // No inline <style> from htmx, no eval, and no carrying the timer bar's
    // style attribute across swaps: the CSP forbids inline styles and eval.
    let mut out =
        "<head><meta charset=\"utf-8\"><meta name=\"viewport\" content=\"width=device-width, initial-scale=1\"><meta name=\"color-scheme\" content=\"light\"><meta name=\"htmx-config\" content=\"{&quot;includeIndicatorStyles&quot;:false,&quot;allowEval&quot;:false,&quot;attributesToSettle&quot;:[&quot;class&quot;]}\"><title>".to_owned();
    push_escaped(&mut out, title);
    out.append("</title><link rel=\"stylesheet\" href=\"/style.css\"><script src=\"");
    out.append(HTMX);
    out.append("\" defer></script><script src=\"");
    out.append(HTMX_SSE);
    out.append("\" defer></script><script src=\"/clock.js\" defer></script></head>");
    Markup(out)
}

pub open spec fn timer_html(phase: PhaseViewModel) -> Seq<char> {
    match phase {
        PhaseViewModel::Question { started, ends, .. } => {
            "<div id=\"timer\" aria-hidden=\"true\"><div id=\"bar\" data-started=\""@ + decimal(
                started as nat,
            ) + "\" data-ends=\""@ + decimal(ends as nat) + "\"></div></div>"@
        },
        _ => "<div id=\"timer\" aria-hidden=\"true\"><div id=\"bar\"></div></div>"@,
    }
}

fn timer(phase: &PhaseView) -> (r: Markup)
    ensures
        r@ == timer_html(phase.content()),
{
    match phase {
        PhaseView::Question { started, ends, .. } => {
            let mut out =
                "<div id=\"timer\" aria-hidden=\"true\"><div id=\"bar\" data-started=\"".to_owned();
            push_decimal(&mut out, *started);
            out.append("\" data-ends=\"");
            push_decimal(&mut out, *ends);
            out.append("\"></div></div>");
            Markup(out)
        },
        _ => Markup(
            "<div id=\"timer\" aria-hidden=\"true\"><div id=\"bar\"></div></div>".to_owned(),
        ),
    }
}

pub open spec fn slop_warning_html() -> Seq<char> {
    "<span class=\"slop\"><span class=\"warning\">warning:</span> this whole site is LLM-slopped, answers included</span>"@
}

/// The whole site, questions and all, was written with an LLM; say so, in
/// Nix's own words.
fn slop_warning() -> (r: &'static str)
    ensures
        r@ == slop_warning_html(),
{
    "<span class=\"slop\"><span class=\"warning\">warning:</span> this whole site is LLM-slopped, answers included</span>"
}

pub open spec fn logo_html() -> Seq<char> {
    "<img class=\"logo\" src=\"/vendor/nixcon-2026-icon.svg\" alt=\"\">"@
}

/// The NixCon 2026 eagle from 2026.nixcon.org.
fn logo() -> (r: &'static str)
    ensures
        r@ == logo_html(),
{
    "<img class=\"logo\" src=\"/vendor/nixcon-2026-icon.svg\" alt=\"\">"
}

pub open spec fn slide_html(name: Seq<char>, alt: Seq<char>) -> Seq<char> {
    "<img src=\"/slides/"@ + escaped(name) + "\" alt=\""@ + escaped(alt) + "\">"@
}

/// What a screen shows of the current slide.
pub open spec fn slide_shown_html(slide: Option<&Slide>) -> Seq<char> {
    match slide {
        Some(s) => slide_html(s.name@, s.alt@),
        None => Seq::empty(),
    }
}

/// The payload of `slide` events: empty while the slides directory is.
pub fn slide(shown: Option<&Slide>) -> (r: Markup)
    ensures
        r@ == slide_shown_html(shown),
{
    match shown {
        Some(s) => {
            let mut out = "<img src=\"/slides/".to_owned();
            push_escaped(&mut out, s.name.as_str());
            out.append("\" alt=\"");
            push_escaped(&mut out, s.alt.as_str());
            out.append("\">");
            Markup(out)
        },
        None => Markup(String::new()),
    }
}

pub open spec fn tally_text_html(answered: nat, online: nat, phase: PhaseViewModel) -> Seq<char> {
    match phase {
        PhaseViewModel::Leaderboard { .. } => decimal(online) + " online"@,
        _ => decimal(answered) + " answered · "@ + decimal(online) + " online"@,
    }
}

/// The payload of `tally` events; also rendered into every fragment.
pub fn tally_text(tally: Tally, phase: &PhaseView) -> (r: String)
    ensures
        r@ == tally_text_html(tally.answered as nat, tally.online as nat, phase.content()),
{
    let mut out = String::new();
    match phase {
        PhaseView::Leaderboard { .. } => {
            push_decimal(&mut out, tally.online as u64);
            assert(out@ =~= decimal(tally.online as nat));
            out.append(" online");
        },
        _ => {
            push_decimal(&mut out, tally.answered as u64);
            assert(out@ =~= decimal(tally.answered as nat));
            out.append(" answered · ");
            push_decimal(&mut out, tally.online as u64);
            out.append(" online");
        },
    }
    out
}

// The stage

/// The digits of Nix's base-32 numbers.
pub const NIX32: [char; 32] = [
    '0', '1', '2', '3', '4', '5', '6', '7', '8', '9', 'a', 'b', 'c', 'd', 'f', 'g', 'h', 'i', 'j',
    'k', 'l', 'm', 'n', 'p', 'q', 'r', 's', 'v', 'w', 'x', 'y', 'z',
];

/// The last digits of a number in base 32, the lowest first.
pub open spec fn nix32(hash: u64, digits: nat) -> Seq<char>
    decreases digits,
{
    if digits == 0 {
        Seq::empty()
    } else {
        seq![NIX32@[(hash % 32) as int]] + nix32(hash / 32, (digits - 1) as nat)
    }
}

/// Digits of a store path's hash.
pub const HASH_DIGITS: usize = 8;

pub open spec fn store_path_text(text: Seq<char>, number: u32, of: u32) -> Seq<char> {
    "/nix/store/"@ + nix32(fnv1a_of(encode_utf8(text)), HASH_DIGITS as nat) + "-question-"@
        + decimal(number as nat) + "-of-"@ + decimal(of as nat)
}

/// Decoration: questions are labelled like store paths, with a hash of the
/// question text in Nix's base-32 alphabet.
pub fn store_path(text: &str, number: u32, of: u32) -> (r: String)
    ensures
        r@ == store_path_text(text@, number, of),
{
    let mut out = "/nix/store/".to_owned();
    let mut hash: u64 = fnv1a(text.as_bytes());
    let ghost whole = hash;
    let mut i: usize = 0;
    while i < HASH_DIGITS
        invariant
            i <= HASH_DIGITS,
            out@ + nix32(hash, (HASH_DIGITS - i) as nat) == "/nix/store/"@ + nix32(
                whole,
                HASH_DIGITS as nat,
            ),
        decreases HASH_DIGITS - i,
    {
        let ghost before = out@;
        let digit = NIX32[(hash % 32) as usize];
        out.push(digit);
        proof {
            let rest = nix32(hash / 32, (HASH_DIGITS - i - 1) as nat);
            assert(nix32(hash, (HASH_DIGITS - i) as nat) == seq![digit] + rest);
            assert(out@ + rest =~= before + (seq![digit] + rest));
        }
        hash = hash / 32;
        i += 1;
    }
    assert(out@ =~= out@ + nix32(hash, 0));
    out.append("-question-");
    push_decimal(&mut out, number as u64);
    out.append("-of-");
    push_decimal(&mut out, of as u64);
    out
}

pub open spec fn heading_html(number: u32, of: u32, text: Seq<char>) -> Seq<char> {
    "<p class=\"label\">"@ + escaped(store_path_text(text, number, of))
        + "</p><h2 class=\"question\">"@ + escaped(text) + "</h2>"@
}

fn heading(number: u32, of: u32, text: &str) -> (r: Markup)
    ensures
        r@ == heading_html(number, of, text@),
{
    let mut out = "<p class=\"label\">".to_owned();
    push_escaped(&mut out, store_path(text, number, of).as_str());
    out.append("</p><h2 class=\"question\">");
    push_escaped(&mut out, text);
    out.append("</h2>");
    Markup(out)
}

pub open spec fn result_html(class: Seq<char>, headline: Seq<char>, log: Seq<char>) -> Seq<char> {
    "<p class=\"result "@ + escaped(class) + "\"><span class=\"headline\">"@ + escaped(headline)
        + "</span><span class=\"log\">"@ + escaped(log) + "</span></p>"@
}

fn result(class: &str, headline: &str, log: &str) -> (r: Markup)
    ensures
        r@ == result_html(class@, headline@, log@),
{
    let mut out = "<p class=\"result ".to_owned();
    push_escaped(&mut out, class);
    out.append("\"><span class=\"headline\">");
    push_escaped(&mut out, headline);
    out.append("</span><span class=\"log\">");
    push_escaped(&mut out, log);
    out.append("</span></p>");
    Markup(out)
}

/// What became of the player's answer.
pub open spec fn outcome_html(answered: Option<usize>, gained: Option<u64>) -> Seq<char> {
    match (answered, gained) {
        (None, _) => result_html("none"@, "no answer"@, "error: evaluation timed out"@),
        (Some(_), Some(points)) => result_html(
            "good"@,
            "+"@ + decimal(points as nat),
            "build succeeded: "@ + decimal(BASE_POINTS as nat) + " for right + "@ + decimal(
                (points - BASE_POINTS) as nat,
            ) + " for speed"@,
        ),
        (Some(_), None) => result_html(
            "bad"@,
            "wrong"@,
            "error: builder for 'answer.drv' failed"@,
        ),
    }
}

fn outcome(answered: Option<usize>, gained: Option<u64>) -> (r: Markup)
    requires
        answered is Some && gained is Some ==> gained->0 >= BASE_POINTS,
    ensures
        r@ == outcome_html(answered, gained),
{
    match (answered, gained) {
        (None, _) => result("none", "no answer", "error: evaluation timed out"),
        (Some(_), Some(points)) => {
            let mut headline = "+".to_owned();
            push_decimal(&mut headline, points);
            let mut log = "build succeeded: ".to_owned();
            push_decimal(&mut log, BASE_POINTS);
            log.append(" for right + ");
            push_decimal(&mut log, points - BASE_POINTS);
            log.append(" for speed");
            result("good", headline.as_str(), log.as_str())
        },
        (Some(_), None) => result("bad", "wrong", "error: builder for 'answer.drv' failed"),
    }
}

/// Seconds until `ends`, rounded up.
pub open spec fn seconds_left(ends: u64, now: u64) -> nat {
    if now >= ends {
        0
    } else {
        ((ends - now + 999) / 1000) as nat
    }
}

/// A label in which the seconds left stand between `before` and `after`.
pub open spec fn countdown_html(
    ends: u64,
    now: u64,
    before: Seq<char>,
    after: Seq<char>,
    big: bool,
) -> Seq<char> {
    "<p class=\"countdown"@ + if_text(big, " big"@) + "\" data-ends=\""@ + decimal(ends as nat)
        + "\" data-label=\""@ + escaped(before + "{}"@ + after) + "\">"@ + escaped(
        before + decimal(seconds_left(ends, now)) + after,
    ) + "</p>"@
}

/// A text that only stands there under a condition.
pub open spec fn if_text(condition: bool, text: Seq<char>) -> Seq<char> {
    if condition {
        text
    } else {
        Seq::empty()
    }
}

fn push_if(out: &mut String, condition: bool, text: &str)
    ensures
        final(out)@ == old(out)@ + if_text(condition, text@),
{
    if condition {
        out.append(text);
    } else {
        assert(out@ =~= old(out)@ + Seq::<char>::empty());
    }
}

/// Rendered with the seconds left at render time; clock.js keeps it running.
fn countdown(ends: u64, now: u64, before: &str, after: &str, big: bool) -> (r: Markup)
    ensures
        r@ == countdown_html(ends, now, before@, after@, big),
{
    let left: u64 = if now >= ends {
        0
    } else {
        ends - now
    };
    let seconds: u64 = left / 1000 + (if left % 1000 > 0 {
        1u64
    } else {
        0
    });
    let mut label = before.to_owned();
    label.append("{}");
    label.append(after);
    let mut text = before.to_owned();
    push_decimal(&mut text, seconds);
    text.append(after);
    let mut out = "<p class=\"countdown".to_owned();
    push_if(&mut out, big, " big");
    out.append("\" data-ends=\"");
    push_decimal(&mut out, ends);
    out.append("\" data-label=\"");
    push_escaped(&mut out, label.as_str());
    out.append("\">");
    push_escaped(&mut out, text.as_str());
    out.append("</p>");
    Markup(out)
}

// Choices

/// What it takes to render a phase for the livestream: a letter for every
/// choice, and a count where there are votes.
pub open spec fn can_spectate(phase: PhaseViewModel) -> bool {
    match phase {
        PhaseViewModel::Question { choices, .. } => choices.len() <= LETTERS@.len(),
        PhaseViewModel::Reveal { choices, counts, .. } => {
            &&& choices.len() <= LETTERS@.len()
            &&& choices.len() <= counts.len()
            &&& total(counts) <= u32::MAX
        },
        PhaseViewModel::Leaderboard { .. } => true,
    }
}

/// What it takes to render the form of a phase: where a question is open, a
/// letter for every choice, and without a pick a clock that runs forward.
pub open spec fn can_answer(phase: PhaseViewModel) -> bool {
    match phase {
        PhaseViewModel::Question { choices, started, ends, pick_points, .. } => {
            &&& choices.len() <= LETTERS@.len()
            &&& pick_points is None ==> started <= ends
        },
        _ => true,
    }
}

/// What it takes to render a phase for a player: also a gain that a right
/// answer can have.
pub open spec fn can_render(phase: PhaseViewModel) -> bool {
    &&& can_spectate(phase)
    &&& can_answer(phase)
    &&& phase matches PhaseViewModel::Reveal { answered: Some(_), gained: Some(points), .. }
        ==> points >= BASE_POINTS
}

/// Whether there is a letter for every choice of every question.
pub open spec fn fits_letters(m: GameModel) -> bool {
    forall|i: int|
        0 <= i < m.questions.len() ==> (#[trigger] m.questions[i]).choices.len() <= LETTERS@.len()
}

/// There is a letter for every choice of questions that are playable.
pub proof fn playable_questions_fit(m: GameModel)
    requires
        forall|i: int| 0 <= i < m.questions.len() ==> is_playable(#[trigger] m.questions[i]),
    ensures
        fits_letters(m),
{
}

/// Every picture of a game can be rendered.
pub proof fn shown_can_be_rendered(m: GameModel, id: Option<PlayerId>, now: u64)
    requires
        is_valid(m),
        fits_letters(m),
    ensures
        can_render(shown(m, id, now).phase),
{
    let question = m.questions[m.question as int];
    if m.phase is Reveal {
        tally_adds_up(m);
        count_bound(m.players, |p: PlayerModel| has_answered(p));
        if id is Some && knows(m.players, id->0) {
            let i = player_place(m.players, id->0);
            assert(is_sound(m, m.players[i]));
        }
    }
}

proof fn total_of_prefix(counts: Seq<u32>, n: int)
    requires
        0 <= n <= counts.len(),
    ensures
        total(counts.take(n)) <= total(counts),
    decreases counts.len() - n,
{
    if n < counts.len() {
        total_of_prefix(counts, n + 1);
        assert(counts.take(n + 1).drop_last() =~= counts.take(n));
    } else {
        assert(counts.take(n) =~= counts);
    }
}

fn sum(counts: &[u32]) -> (r: u32)
    requires
        total(counts@) <= u32::MAX,
    ensures
        r == total(counts@),
{
    let mut r: u32 = 0;
    let mut i: usize = 0;
    assert(counts@.take(0) =~= Seq::<u32>::empty());
    while i < counts.len()
        invariant
            i <= counts@.len(),
            r == total(counts@.take(i as int)),
            total(counts@) <= u32::MAX,
        decreases counts@.len() - i,
    {
        proof {
            assert(counts@.take(i + 1).drop_last() =~= counts@.take(i as int));
            total_of_prefix(counts@, i + 1);
        }
        r = r + counts[i];
        i += 1;
    }
    assert(counts@.take(i as int) =~= counts@);
    r
}

/// The letter and the text of a choice.
pub open spec fn label_html(i: int, text: Seq<char>) -> Seq<char> {
    "<span class=\"letter\">"@ + seq![LETTERS@[i]] + "</span><span class=\"text\">"@ + escaped(text)
        + "</span>"@
}

fn push_label(out: &mut String, i: usize, text: &str)
    requires
        i < LETTERS@.len(),
    ensures
        final(out)@ == old(out)@ + label_html(i as int, text@),
{
    out.append("<span class=\"letter\">");
    out.push(LETTERS[i]);
    out.append("</span><span class=\"text\">");
    push_escaped(out, text);
    out.append("</span>");
    assert(out@ =~= old(out)@ + label_html(i as int, text@));
}

/// The first `n` choices, to look at.
pub open spec fn listed_html(choices: Seq<Seq<char>>, n: nat) -> Seq<char>
    decreases n,
{
    if n == 0 {
        Seq::empty()
    } else {
        listed_html(choices, (n - 1) as nat) + "<div class=\"choice\">"@ + label_html(
            n - 1,
            choices[n - 1],
        ) + "</div>"@
    }
}

fn listed(choices: &[String]) -> (r: Markup)
    requires
        choices@.len() <= LETTERS@.len(),
    ensures
        r@ == listed_html(texts(choices@), choices@.len()),
{
    let mut out = String::new();
    let mut i: usize = 0;
    while i < choices.len()
        invariant
            i <= choices@.len() <= LETTERS@.len(),
            out@ == listed_html(texts(choices@), i as nat),
        decreases choices@.len() - i,
    {
        assert(texts(choices@)[i as int] == choices@[i as int]@);
        out.append("<div class=\"choice\">");
        push_label(&mut out, i, choices[i].as_str());
        out.append("</div>");
        i += 1;
    }
    Markup(out)
}

/// How a choice is marked once the answer is out.
pub open spec fn mark(i: int, correct: usize, answered: Option<usize>) -> Seq<char> {
    if i == correct {
        " correct"@
    } else if answered is Some && answered->0 == i {
        " wrong"@
    } else {
        Seq::empty()
    }
}

/// The first `n` choices with their votes.
pub open spec fn voted_html(
    choices: Seq<Seq<char>>,
    correct: usize,
    counts: Seq<u32>,
    answered: Option<usize>,
    n: nat,
) -> Seq<char>
    decreases n,
{
    if n == 0 {
        Seq::empty()
    } else {
        let i = n - 1;
        let max = if total(counts) > 1 {
            total(counts)
        } else {
            1
        };
        voted_html(choices, correct, counts, answered, i as nat)
            + "<div class=\"choice revealed"@ + mark(i, correct, answered)
            + "\"><progress class=\"share\" value=\""@ + decimal(counts[i] as nat) + "\" max=\""@
            + decimal(max) + "\"></progress>"@ + label_html(i, choices[i])
            + "<span class=\"count\">"@ + decimal(counts[i] as nat) + "</span></div>"@
    }
}

pub open spec fn revealed_html(
    choices: Seq<Seq<char>>,
    correct: usize,
    counts: Seq<u32>,
    answered: Option<usize>,
) -> Seq<char> {
    "<div class=\"choices\">"@ + voted_html(choices, correct, counts, answered, choices.len())
        + "</div>"@
}

fn is_pick(answered: Option<usize>, i: usize) -> (r: bool)
    ensures
        r == (answered == Some(i)),
{
    match answered {
        Some(a) => a == i,
        None => false,
    }
}

fn revealed(choices: &[String], correct: usize, counts: &[u32], answered: Option<usize>) -> (r:
    Markup)
    requires
        choices@.len() <= LETTERS@.len(),
        choices@.len() <= counts@.len(),
        total(counts@) <= u32::MAX,
    ensures
        r@ == revealed_html(texts(choices@), correct, counts@, answered),
{
    let total: u32 = sum(counts);
    let max: u32 = if total > 1 {
        total
    } else {
        1
    };
    let mut rows = String::new();
    let mut i: usize = 0;
    while i < choices.len()
        invariant
            i <= choices@.len() <= LETTERS@.len(),
            choices@.len() <= counts@.len(),
            total == crate::state::total(counts@),
            max == (if total > 1 { total } else { 1 }),
            rows@ == voted_html(texts(choices@), correct, counts@, answered, i as nat),
        decreases choices@.len() - i,
    {
        assert(texts(choices@)[i as int] == choices@[i as int]@);
        rows.append("<div class=\"choice revealed");
        let mark = if i == correct {
            " correct"
        } else if is_pick(answered, i) {
            " wrong"
        } else {
            ""
        };
        proof {
            reveal_strlit("");
            assert(mark@ =~= self::mark(i as int, correct, answered));
        }
        rows.append(mark);
        rows.append("\"><progress class=\"share\" value=\"");
        push_decimal(&mut rows, counts[i] as u64);
        rows.append("\" max=\"");
        push_decimal(&mut rows, max as u64);
        rows.append("\"></progress>");
        push_label(&mut rows, i, choices[i].as_str());
        rows.append("<span class=\"count\">");
        push_decimal(&mut rows, counts[i] as u64);
        rows.append("</span></div>");
        i += 1;
    }
    let mut out = "<div class=\"choices\">".to_owned();
    out.append(rows.as_str());
    out.append("</div>");
    Markup(out)
}

/// The first `n` places.
pub open spec fn places_html(top: Seq<StandingModel>, me: Option<u64>, n: nat) -> Seq<char>
    decreases n,
{
    if n == 0 {
        Seq::empty()
    } else {
        let entry = top[n - 1];
        places_html(top, me, (n - 1) as nat) + "<li class=\""@ + if_text(
            me == Some(entry.id),
            "me"@,
        ) + "\"><span class=\"rank\">#"@ + decimal(entry.rank) + "</span><span class=\"who\">"@
            + escaped(entry.name) + "</span><span class=\"points\">"@ + decimal(entry.score as nat)
            + "</span></li>"@
    }
}

pub open spec fn standings_html(top: Seq<StandingModel>, me: Option<u64>) -> Seq<char> {
    if top.len() == 0 {
        "<p class=\"status\">Nobody scored this round.</p>"@
    } else {
        "<ol class=\"leaderboard\">"@ + places_html(top, me, top.len()) + "</ol>"@
    }
}

/// `me` is highlighted when it made the list.
fn standings(top: &[Standing], me: Option<u64>) -> (r: Markup)
    ensures
        r@ == standings_html(standing_models(top@), me),
{
    if top.len() == 0 {
        return Markup("<p class=\"status\">Nobody scored this round.</p>".to_owned());
    }
    let mut places = String::new();
    let mut i: usize = 0;
    while i < top.len()
        invariant
            i <= top@.len(),
            places@ == places_html(standing_models(top@), me, i as nat),
        decreases top@.len() - i,
    {
        assert(standing_models(top@)[i as int] == top@[i as int].model());
        places.append("<li class=\"");
        let is_me = match me {
            Some(id) => id == top[i].id,
            None => false,
        };
        push_if(&mut places, is_me, "me");
        places.append("\"><span class=\"rank\">#");
        push_decimal(&mut places, top[i].rank as u64);
        places.append("</span><span class=\"who\">");
        push_escaped(&mut places, top[i].name.as_str());
        places.append("</span><span class=\"points\">");
        push_decimal(&mut places, top[i].score);
        places.append("</span></li>");
        i += 1;
    }
    let mut out = "<ol class=\"leaderboard\">".to_owned();
    out.append(places.as_str());
    out.append("</ol>");
    Markup(out)
}

// Answering

/// An attribute that is only there if it has a value.
pub open spec fn optional_html(name: Seq<char>, value: Option<nat>) -> Seq<char> {
    match value {
        Some(v) => name + decimal(v) + "\""@,
        None => Seq::empty(),
    }
}

fn push_optional(out: &mut String, name: &str, value: Option<u64>)
    ensures
        final(out)@ == old(out)@ + optional_html(
            name@,
            match value {
                Some(v) => Some(v as nat),
                None => None,
            },
        ),
{
    match value {
        Some(v) => {
            out.append(name);
            push_decimal(out, v);
            out.append("\"");
            assert(out@ =~= old(out)@ + (name@ + decimal(v as nat) + "\""@));
        },
        None => {
            assert(out@ =~= old(out)@ + Seq::<char>::empty());
        },
    }
}

pub open spec fn worth_html(
    pick_points: Option<u64>,
    started: u64,
    ends: u64,
    now: u64,
) -> Seq<char> {
    let shown = match pick_points {
        Some(p) => p,
        None => crate::state::worth(started, ends, now),
    };
    "<p class=\"worth\" data-started=\""@ + decimal(started as nat) + "\" data-ends=\""@ + decimal(
        ends as nat,
    ) + "\" data-base=\""@ + decimal(BASE_POINTS as nat) + "\" data-speed=\""@ + decimal(
        SPEED_POINTS as nat,
    ) + "\""@ + optional_html(
        " data-picked=\""@,
        match pick_points {
            Some(p) => Some(p as nat),
            None => None,
        },
    ) + "><span class=\"value\">+"@ + decimal(shown as nat)
        + "</span><span class=\"live\">for a right answer now</span><span class=\"locked\">if your pick is right</span><span class=\"rule\">"@
        + decimal(BASE_POINTS as nat) + " for right + up to "@ + decimal(SPEED_POINTS as nat)
        + " for speed</span></p>"@
}

/// What a right answer is worth: counting down with the clock until you
/// pick, then fixed at what your pick earns if it's right. clock.js keeps
/// it running with the same formula as `game::points`.
fn worth(pick_points: Option<u64>, started: u64, ends: u64, now: u64) -> (r: Markup)
    requires
        pick_points is None ==> started <= ends,
    ensures
        r@ == worth_html(pick_points, started, ends, now),
{
    let shown: u64 = match pick_points {
        Some(p) => p,
        None => points(started, ends, now),
    };
    let mut out = "<p class=\"worth\" data-started=\"".to_owned();
    push_decimal(&mut out, started);
    out.append("\" data-ends=\"");
    push_decimal(&mut out, ends);
    out.append("\" data-base=\"");
    push_decimal(&mut out, BASE_POINTS);
    out.append("\" data-speed=\"");
    push_decimal(&mut out, SPEED_POINTS);
    out.append("\"");
    push_optional(&mut out, " data-picked=\"", pick_points);
    out.append("><span class=\"value\">+");
    push_decimal(&mut out, shown);
    out.append(
        "</span><span class=\"live\">for a right answer now</span><span class=\"locked\">if your pick is right</span><span class=\"rule\">",
    );
    push_decimal(&mut out, BASE_POINTS);
    out.append(" for right + up to ");
    push_decimal(&mut out, SPEED_POINTS);
    out.append(" for speed</span></p>");
    Markup(out)
}

/// The first `n` choices, to pick from.
pub open spec fn radios_html(choices: Seq<Seq<char>>, answered: Option<usize>, n: nat) -> Seq<char>
    decreases n,
{
    if n == 0 {
        Seq::empty()
    } else {
        let i = n - 1;
        radios_html(choices, answered, i as nat)
            + "<label class=\"choice\"><input type=\"radio\" name=\"choice\" value=\""@ + decimal(
            i as nat,
        ) + "\""@ + if_text(answered is Some && answered->0 == i, " checked"@) + ">"@ + label_html(
            i,
            choices[i],
        ) + "</label>"@
    }
}

fn radios(choices: &[String], answered: Option<usize>) -> (r: Markup)
    requires
        choices@.len() <= LETTERS@.len(),
    ensures
        r@ == radios_html(texts(choices@), answered, choices@.len()),
{
    let mut out = String::new();
    let mut i: usize = 0;
    while i < choices.len()
        invariant
            i <= choices@.len() <= LETTERS@.len(),
            out@ == radios_html(texts(choices@), answered, i as nat),
        decreases choices@.len() - i,
    {
        assert(texts(choices@)[i as int] == choices@[i as int]@);
        out.append("<label class=\"choice\"><input type=\"radio\" name=\"choice\" value=\"");
        push_decimal(&mut out, i as u64);
        out.append("\"");
        push_if(&mut out, is_pick(answered, i), " checked");
        out.append(">");
        push_label(&mut out, i, choices[i].as_str());
        out.append("</label>");
        i += 1;
    }
    Markup(out)
}

/// The form of an open question; there is none without one.
pub open spec fn answer_form_html(url: Seq<char>, question: PhaseViewModel, now: u64) -> Seq<char> {
    match question {
        PhaseViewModel::Question { seq, choices, started, ends, answered, pick_points, .. } => {
            "<form id=\"answer\" hx-post=\""@ + escaped(url)
                + "\" hx-trigger=\"change\" hx-swap=\"none\" hx-sync=\"this:queue last\""@
                + optional_html(
                " data-saved=\""@,
                match answered {
                    Some(i) => Some(i as nat),
                    None => None,
                },
            ) + "><input type=\"hidden\" name=\"seq\" value=\""@ + decimal(seq as nat)
                + "\"><fieldset class=\"choices\" data-closes=\""@ + decimal(ends as nat) + "\""@
                + if_text(now >= ends, " disabled"@) + ">"@ + radios_html(
                choices,
                answered,
                choices.len(),
            ) + "</fieldset>"@ + worth_html(pick_points, started, ends, now)
                + "<p class=\"status\"><span class=\"unpicked\">pick an answer</span><span class=\"picked\">you can change your answer until the time runs out; the speed bonus then counts from the new pick</span><span class=\"expired\">time's up</span><span class=\"notice\"></span></p></form>"@
        },
        _ => Seq::empty(),
    }
}

/// A radio per choice, posted to `url`. htmx posts the form on every change;
/// `queue last` keeps requests in order so quick switching can't leave an
/// older pick on the server. The picked state is the radio itself, so
/// nothing is swapped back.
fn answer_form(url: &str, question: &PhaseView, now: u64) -> (r: Markup)
    requires
        can_answer(question.content()),
    ensures
        r@ == answer_form_html(url@, question.content(), now),
{
    match question {
        PhaseView::Question { seq, choices, started, ends, answered, pick_points, .. } => {
            let mut out = "<form id=\"answer\" hx-post=\"".to_owned();
            push_escaped(&mut out, url);
            out.append(
                "\" hx-trigger=\"change\" hx-swap=\"none\" hx-sync=\"this:queue last\"",
            );
            let saved: Option<u64> = match answered {
                Some(i) => Some(*i as u64),
                None => None,
            };
            push_optional(&mut out, " data-saved=\"", saved);
            out.append("><input type=\"hidden\" name=\"seq\" value=\"");
            push_decimal(&mut out, *seq);
            out.append("\"><fieldset class=\"choices\" data-closes=\"");
            push_decimal(&mut out, *ends);
            out.append("\"");
            push_if(&mut out, now >= *ends, " disabled");
            out.append(">");
            out.append(radios(choices, *answered).text());
            out.append("</fieldset>");
            out.append(worth(*pick_points, *started, *ends, now).text());
            out.append(
                "<p class=\"status\"><span class=\"unpicked\">pick an answer</span><span class=\"picked\">you can change your answer until the time runs out; the speed bonus then counts from the new pick</span><span class=\"expired\">time's up</span><span class=\"notice\"></span></p></form>",
            );
            Markup(out)
        },
        _ => Markup(String::new()),
    }
}

// What changes during the game

/// The beginning of every fragment.
pub open spec fn brand_html(view: ViewModel) -> Seq<char> {
    "<div class=\"view\" data-now=\""@ + decimal(view.now as nat) + "\" data-phase=\""@ + escaped(
        phase_name_html(view.phase),
    ) + "\"><header><div class=\"brand\">"@ + logo_html() + "<h1>"@ + escaped(view.title)
        + "</h1></div>"@
}

fn brand(view: &View) -> (r: Markup)
    ensures
        r@ == brand_html(view.content()),
{
    let mut out = "<div class=\"view\" data-now=\"".to_owned();
    push_decimal(&mut out, view.now);
    out.append("\" data-phase=\"");
    push_escaped(&mut out, phase_name(&view.phase));
    out.append("\"><header><div class=\"brand\">");
    out.append(logo());
    out.append("<h1>");
    push_escaped(&mut out, view.title);
    out.append("</h1></div>");
    Markup(out)
}

/// The leaderboard's own heading.
pub open spec fn round_over_html() -> Seq<char> {
    "<p class=\"label\">/nix/var/nix/profiles/leaderboard</p><h2 class=\"question\">Round over</h2>"@
}

/// How the round went for the player.
pub open spec fn finish_html(me: MeModel, players: nat) -> Seq<char> {
    "<p class=\"status\">"@ + match me.rank {
        Some(rank) => "You finished #"@ + decimal(rank) + " of "@ + decimal(players) + " with "@
            + decimal(me.score as nat) + " points"@,
        None => "No points for you this round. Next one!"@,
    } + "</p>"@
}

fn finish(me: &Me, players: usize) -> (r: Markup)
    ensures
        r@ == finish_html(me.content(), players as nat),
{
    let mut line = String::new();
    match me.rank {
        Some(rank) => {
            line.append("You finished #");
            assert(line@ =~= "You finished #"@);
            push_decimal(&mut line, rank as u64);
            line.append(" of ");
            push_decimal(&mut line, players as u64);
            line.append(" with ");
            push_decimal(&mut line, me.score);
            line.append(" points");
        },
        None => {
            line.append("No points for you this round. Next one!");
            assert(line@ =~= "No points for you this round. Next one!"@);
        },
    }
    let mut out = "<p class=\"status\">".to_owned();
    out.append(line.as_str());
    out.append("</p>");
    Markup(out)
}

/// What a player sees of the current phase.
pub open spec fn main_html(view: ViewModel, me: MeModel, answer_url: Seq<char>) -> Seq<char> {
    match view.phase {
        PhaseViewModel::Question { number, of, text, ends, .. } => heading_html(number, of, text)
            + answer_form_html(answer_url, view.phase, view.now) + countdown_html(
            ends,
            view.now,
            ""@,
            "s"@,
            true,
        ),
        PhaseViewModel::Reveal {
            number,
            of,
            text,
            choices,
            ends,
            correct,
            counts,
            explanation,
            answered,
            gained,
        } => heading_html(number, of, text) + outcome_html(answered, gained) + revealed_html(
            choices,
            correct,
            counts,
            answered,
        ) + "<p class=\"explanation\">"@ + escaped(explanation) + "</p>"@ + countdown_html(
            ends,
            view.now,
            "next question in "@,
            "s"@,
            false,
        ),
        PhaseViewModel::Leaderboard { ends, top, players } => round_over_html() + standings_html(
            top,
            Some(me.id),
        ) + finish_html(me, players) + countdown_html(
            ends,
            view.now,
            "next round in "@,
            "s"@,
            false,
        ),
    }
}

fn main_part(view: &View, me: &Me, answer_url: &str) -> (r: Markup)
    requires
        can_render(view.phase.content()),
    ensures
        r@ == main_html(view.content(), me.content(), answer_url@),
{
    match &view.phase {
        PhaseView::Question { number, of, text, ends, .. } => {
            let mut out = heading(*number, *of, text).into_string();
            out.append(answer_form(answer_url, &view.phase, view.now).text());
            out.append(countdown(*ends, view.now, "", "s", true).text());
            Markup(out)
        },
        PhaseView::Reveal {
            number,
            of,
            text,
            choices,
            ends,
            correct,
            counts,
            explanation,
            answered,
            gained,
        } => {
            let mut out = heading(*number, *of, text).into_string();
            out.append(outcome(*answered, *gained).text());
            out.append(revealed(choices, *correct, counts, *answered).text());
            out.append("<p class=\"explanation\">");
            push_escaped(&mut out, explanation);
            out.append("</p>");
            out.append(countdown(*ends, view.now, "next question in ", "s", false).text());
            Markup(out)
        },
        PhaseView::Leaderboard { ends, top, players } => {
            let mut out =
                "<p class=\"label\">/nix/var/nix/profiles/leaderboard</p><h2 class=\"question\">Round over</h2>".to_owned();
            out.append(standings(top, Some(me.id)).text());
            out.append(finish(me, *players).text());
            out.append(countdown(*ends, view.now, "next round in ", "s", false).text());
            Markup(out)
        },
    }
}

/// What a player's page shows of the game.
pub open spec fn game_html(view: ViewModel, answer_url: Seq<char>) -> Seq<char> {
    let me = view.me->0;
    brand_html(view) + "<div id=\"me\"><span id=\"name\">"@ + escaped(me.name)
        + "</span><span id=\"standing\">"@ + decimal(me.score as nat) + " pts"@ + match me.rank {
        Some(rank) => " · #"@ + decimal(rank),
        None => Seq::empty(),
    } + "</span></div></header>"@ + timer_html(view.phase) + "<main>"@ + main_html(
        view,
        me,
        answer_url,
    ) + "</main><footer><span>"@ + decimal(view.online) + " online</span>"@ + slop_warning_html()
        + "</footer></div>"@
}

/// Everything that changes during the game; the payload of every event.
pub fn game(view: &View, urls: &Urls) -> (r: Markup)
    requires
        view.me is Some,
        can_render(view.phase.content()),
    ensures
        r@ == game_html(view.content(), urls.answer@),
{
    let me = view.me.as_ref().unwrap();
    let mut out = brand(view).into_string();
    out.append("<div id=\"me\"><span id=\"name\">");
    push_escaped(&mut out, me.name);
    out.append("</span><span id=\"standing\">");
    push_decimal(&mut out, me.score);
    out.append(" pts");
    let mut place = String::new();
    match me.rank {
        Some(rank) => {
            place.append(" · #");
            assert(place@ =~= " · #"@);
            push_decimal(&mut place, rank as u64);
        },
        None => {},
    }
    out.append(place.as_str());
    out.append("</span></div></header>");
    out.append(timer(&view.phase).text());
    out.append("<main>");
    out.append(main_part(view, me, urls.answer).text());
    out.append("</main><footer><span>");
    push_decimal(&mut out, view.online as u64);
    out.append(" online</span>");
    out.append(slop_warning());
    out.append("</footer></div>");
    Markup(out)
}

/// What the livestream sees of the current phase.
pub open spec fn spectate_main_html(view: ViewModel) -> Seq<char> {
    match view.phase {
        PhaseViewModel::Question { number, of, text, choices, ends, .. } => heading_html(
            number,
            of,
            text,
        ) + "<div class=\"choices\">"@ + listed_html(choices, choices.len()) + "</div>"@
            + countdown_html(ends, view.now, ""@, "s"@, true),
        PhaseViewModel::Reveal {
            number,
            of,
            text,
            choices,
            ends,
            correct,
            counts,
            explanation,
            ..
        } => heading_html(number, of, text) + revealed_html(choices, correct, counts, None)
            + "<p class=\"explanation\">"@ + escaped(explanation) + "</p>"@ + countdown_html(
            ends,
            view.now,
            "next question in "@,
            "s"@,
            false,
        ),
        PhaseViewModel::Leaderboard { ends, top, .. } => round_over_html() + standings_html(
            top,
            None,
        ) + countdown_html(ends, view.now, "next round in "@, "s"@, false),
    }
}

fn spectate_main(view: &View) -> (r: Markup)
    requires
        can_spectate(view.phase.content()),
    ensures
        r@ == spectate_main_html(view.content()),
{
    match &view.phase {
        PhaseView::Question { number, of, text, choices, ends, .. } => {
            let mut out = heading(*number, *of, text).into_string();
            out.append("<div class=\"choices\">");
            out.append(listed(choices).text());
            out.append("</div>");
            out.append(countdown(*ends, view.now, "", "s", true).text());
            Markup(out)
        },
        PhaseView::Reveal {
            number,
            of,
            text,
            choices,
            ends,
            correct,
            counts,
            explanation,
            ..
        } => {
            let mut out = heading(*number, *of, text).into_string();
            out.append(revealed(choices, *correct, counts, None).text());
            out.append("<p class=\"explanation\">");
            push_escaped(&mut out, explanation);
            out.append("</p>");
            out.append(countdown(*ends, view.now, "next question in ", "s", false).text());
            Markup(out)
        },
        PhaseView::Leaderboard { ends, top, .. } => {
            let mut out =
                "<p class=\"label\">/nix/var/nix/profiles/leaderboard</p><h2 class=\"question\">Round over</h2>".to_owned();
            out.append(standings(top, None).text());
            out.append(countdown(*ends, view.now, "next round in ", "s", false).text());
            Markup(out)
        },
    }
}

/// What the livestream shows of the game.
pub open spec fn spectate_game_html(view: ViewModel, answered: nat, online: nat) -> Seq<char> {
    brand_html(view) + "<span id=\"tally\" sse-swap=\"tally\">"@ + escaped(
        tally_text_html(answered, online, view.phase),
    ) + "</span></header>"@ + timer_html(view.phase) + "<main>"@ + spectate_main_html(view)
        + "</main></div>"@
}

/// The livestream's picture of the game: like a player's, without the
/// player, bigger, and with a live count of answers.
pub fn spectate_game(view: &View, tally: Tally) -> (r: Markup)
    requires
        can_spectate(view.phase.content()),
    ensures
        r@ == spectate_game_html(view.content(), tally.answered as nat, tally.online as nat),
{
    let mut out = brand(view).into_string();
    out.append("<span id=\"tally\" sse-swap=\"tally\">");
    push_escaped(&mut out, tally_text(tally, &view.phase).as_str());
    out.append("</span></header>");
    out.append(timer(&view.phase).text());
    out.append("<main>");
    out.append(spectate_main(view).text());
    out.append("</main></div>");
    Markup(out)
}

// Pages

pub open spec fn page_html(
    view: ViewModel,
    events_url: Seq<char>,
    answer_url: Seq<char>,
    seen: Seq<char>,
) -> Seq<char> {
    "<!DOCTYPE html><html lang=\"en\">"@ + head_html(view.title)
        + "<body><div id=\"game\" hx-ext=\"sse\" sse-connect=\""@ + escaped(events_url) + "?seen="@
        + escaped(seen) + "\" sse-swap=\"message\">"@ + game_html(view, answer_url)
        + "</div><p id=\"connection\"></p></body></html>"@
}

/// The whole document, with the current view already in place. `seen` names
/// the state rendered here, for the event stream.
pub fn page(view: &View, urls: &Urls, seen: &str) -> (r: Markup)
    requires
        view.me is Some,
        can_render(view.phase.content()),
    ensures
        r@ == page_html(view.content(), urls.events@, urls.answer@, seen@),
{
    let mut out = "<!DOCTYPE html><html lang=\"en\">".to_owned();
    out.append(head(view.title).text());
    out.append("<body><div id=\"game\" hx-ext=\"sse\" sse-connect=\"");
    push_escaped(&mut out, urls.events);
    out.append("?seen=");
    push_escaped(&mut out, seen);
    out.append("\" sse-swap=\"message\">");
    out.append(game(view, urls).text());
    out.append("</div><p id=\"connection\"></p></body></html>");
    Markup(out)
}

/// The text without the prefix, however often it is repeated.
pub open spec fn without_prefix(s: Seq<char>, prefix: Seq<char>) -> Seq<char>
    decreases s.len(),
{
    if 0 < prefix.len() <= s.len() && s.take(prefix.len() as int) == prefix {
        without_prefix(s.skip(prefix.len() as int), prefix)
    } else {
        s
    }
}

/// The text without the slashes at its end.
pub open spec fn without_slashes(s: Seq<char>) -> Seq<char>
    decreases s.len(),
{
    if s.len() > 0 && s.last() == '/' {
        without_slashes(s.drop_last())
    } else {
        s
    }
}

/// An address as it is read out: without scheme and final slash.
pub open spec fn address(url: Seq<char>) -> Seq<char> {
    without_slashes(without_prefix(without_prefix(url, "https://"@), "http://"@))
}

/// Where the text begins, from `from` on, without the prefix.
fn skip_prefix(chars: &Vec<char>, from: usize, prefix: &str) -> (r: usize)
    requires
        from <= chars@.len(),
    ensures
        from <= r <= chars@.len(),
        chars@.skip(r as int) == without_prefix(chars@.skip(from as int), prefix@),
{
    let prefix_chars = chars_of(prefix);
    let mut start: usize = from;
    while prefix_chars.len() > 0 && prefix_chars.len() <= chars.len() - start && same_chars(
        chars,
        start,
        start + prefix_chars.len(),
        &prefix_chars,
    )
        invariant
            from <= start <= chars@.len(),
            prefix_chars@ == prefix@,
            without_prefix(chars@.skip(from as int), prefix@) == without_prefix(
                chars@.skip(start as int),
                prefix@,
            ),
        ensures
            !(0 < prefix@.len() <= chars@.len() - start && chars@.subrange(
                start as int,
                start + prefix@.len(),
            ) == prefix@),
        decreases chars@.len() - start,
    {
        proof {
            let rest = chars@.skip(start as int);
            let n = prefix@.len() as int;
            assert(rest.take(n) =~= chars@.subrange(start as int, start + n));
            assert(rest.skip(n) =~= chars@.skip(start + n));
        }
        start = start + prefix_chars.len();
    }
    proof {
        let rest = chars@.skip(start as int);
        let n = prefix@.len() as int;
        if n <= rest.len() {
            assert(rest.take(n) =~= chars@.subrange(start as int, start + n));
        }
    }
    start
}

fn read_out(url: &str) -> (r: String)
    ensures
        r@ == address(url@),
{
    let chars = chars_of(url);
    let from = skip_prefix(&chars, 0, "https://");
    assert(chars@.skip(0) =~= chars@);
    let from = skip_prefix(&chars, from, "http://");
    let mut to: usize = chars.len();
    assert(chars@.subrange(from as int, to as int) =~= chars@.skip(from as int));
    while to > from && chars[to - 1] == '/'
        invariant
            from <= to <= chars@.len(),
            address(url@) == without_slashes(chars@.subrange(from as int, to as int)),
        ensures
            !(to > from && chars@[to - 1] == '/'),
        decreases to - from,
    {
        assert(chars@.subrange(from as int, to as int).drop_last() =~= chars@.subrange(
            from as int,
            to - 1,
        ));
        to -= 1;
    }
    string_of(&chars, from, to)
}

/// The part of the livestream screen that says how to join.
pub open spec fn join_html(qr_url: Seq<char>, join: Seq<char>) -> Seq<char> {
    "<aside class=\"join\"><img class=\"qr\" src=\""@ + escaped(qr_url) + "\" alt=\"QR code for "@
        + escaped(join)
        + "\"><div class=\"how\"><p class=\"label\">join the quiz</p><p class=\"url\">"@ + escaped(
        address(join),
    ) + "</p><p class=\"hint\">scan the code or open the address on your phone</p>"@
        + slop_warning_html()
        + "</div><ol class=\"steps\"><li>everyone gets the same question at the same time</li><li>tap an answer; you can change it until the time runs out</li><li>right answers score, faster ones score more</li></ol></aside>"@
}

fn join_part(qr_url: &str, join: &str) -> (r: Markup)
    ensures
        r@ == join_html(qr_url@, join@),
{
    let mut out = "<aside class=\"join\"><img class=\"qr\" src=\"".to_owned();
    push_escaped(&mut out, qr_url);
    out.append("\" alt=\"QR code for ");
    push_escaped(&mut out, join);
    out.append("\"><div class=\"how\"><p class=\"label\">join the quiz</p><p class=\"url\">");
    push_escaped(&mut out, read_out(join).as_str());
    out.append("</p><p class=\"hint\">scan the code or open the address on your phone</p>");
    out.append(slop_warning());
    out.append(
        "</div><ol class=\"steps\"><li>everyone gets the same question at the same time</li><li>tap an answer; you can change it until the time runs out</li><li>right answers score, faster ones score more</li></ol></aside>",
    );
    Markup(out)
}

/// The place for slides, on a screen that has them.
pub open spec fn aside_html(slide: Option<Option<&Slide>>) -> Seq<char> {
    match slide {
        Some(current) => "<aside id=\"slide\" sse-swap=\"slide\">"@ + slide_shown_html(current)
            + "</aside>"@,
        None => Seq::empty(),
    }
}

fn aside(shown: Option<Option<&Slide>>) -> (r: Markup)
    ensures
        r@ == aside_html(shown),
{
    match shown {
        Some(current) => {
            let mut out = "<aside id=\"slide\" sse-swap=\"slide\">".to_owned();
            out.append(slide(current).text());
            out.append("</aside>");
            Markup(out)
        },
        None => Markup(String::new()),
    }
}

pub open spec fn spectate_page_html(
    view: ViewModel,
    answered: nat,
    online: nat,
    events_url: Seq<char>,
    qr_url: Seq<char>,
    join: Seq<char>,
    slide: Option<Option<&Slide>>,
) -> Seq<char> {
    "<!DOCTYPE html><html lang=\"en\">"@ + head_html(view.title)
        + "<body class=\"spectate\"><div class=\"stage\" hx-ext=\"sse\" sse-connect=\""@ + escaped(
        events_url,
    ) + "\"><div id=\"game\" sse-swap=\"message\">"@ + spectate_game_html(view, answered, online)
        + "</div>"@ + aside_html(slide) + join_html(qr_url, join)
        + "</div><p id=\"connection\"></p></body></html>"@
}

/// The livestream screen. `join` is the URL players should open. `shown` is
/// the break slide to show, `None` when the screen has no slides at all.
pub fn spectate_page(
    view: &View,
    tally: Tally,
    urls: &Urls,
    join: &str,
    shown: Option<Option<&Slide>>,
) -> (r: Markup)
    requires
        can_spectate(view.phase.content()),
    ensures
        r@ == spectate_page_html(
            view.content(),
            tally.answered as nat,
            tally.online as nat,
            urls.spectate_events@,
            urls.qr@,
            join@,
            shown,
        ),
{
    let mut out = "<!DOCTYPE html><html lang=\"en\">".to_owned();
    out.append(head(view.title).text());
    out.append("<body class=\"spectate\"><div class=\"stage\" hx-ext=\"sse\" sse-connect=\"");
    push_escaped(&mut out, urls.spectate_events);
    out.append("\"><div id=\"game\" sse-swap=\"message\">");
    out.append(spectate_game(view, tally).text());
    out.append("</div>");
    out.append(aside(shown).text());
    out.append(join_part(urls.qr, join).text());
    out.append("</div><p id=\"connection\"></p></body></html>");
    Markup(out)
}

// The QR code

/// Modules of white around a QR code.
pub const QUIET: usize = 2;

/// What `qrcode::QrCode` makes of a text: the width of the code and which of
/// its modules are dark, row by row. Nothing for a text that is too long.
pub uninterp spec fn qr_matrix(text: Seq<char>) -> Option<(usize, Seq<bool>)>;

/// `qrcode::QrCode::new`, with its `width` and `to_colors`: the code for a
/// text, which depends on the text alone and is called `qr_matrix`. It is a
/// square of 21 to 177 modules. What the modules encode is not said.
#[verifier::external_body]
fn qr_code(text: &str) -> (r: Option<(usize, Vec<bool>)>)
    ensures
        match r {
            Some((width, dark)) => qr_matrix(text@) == Some((width, dark@)),
            None => qr_matrix(text@) is None,
        },
        r matches Some((width, dark)) ==> 21 <= width <= 177 && dark@.len() == width * width,
{
    let code = qrcode::QrCode::new(text).ok()?;
    let dark = code.to_colors().into_iter().map(|c| match c {
        qrcode::Color::Dark => true,
        qrcode::Color::Light => false,
    });
    Some((code.width(), dark.collect()))
}

/// A square for each of the first `n` modules that is dark.
pub open spec fn squares(width: usize, dark: Seq<bool>, n: nat) -> Seq<char>
    decreases n,
{
    if n == 0 {
        Seq::empty()
    } else {
        let i = n - 1;
        squares(width, dark, i as nat) + if_text(
            dark[i],
            "M"@ + decimal((i % width as int + QUIET) as nat) + " "@ + decimal(
                (i / width as int + QUIET) as nat,
            ) + "h1v1h-1z"@,
        )
    }
}

pub open spec fn svg_html(width: usize, dark: Seq<bool>) -> Seq<char> {
    let size = decimal((width + 2 * QUIET) as nat);
    "<svg xmlns=\"http://www.w3.org/2000/svg\" viewBox=\"0 0 "@ + size + " "@ + size
        + "\" shape-rendering=\"crispEdges\"><rect width=\""@ + size + "\" height=\""@ + size
        + "\" fill=\"#fff\"></rect><path d=\""@ + escaped(squares(width, dark, dark.len()))
        + "\" fill=\"#2f2f2f\"></path></svg>"@
}

/// A square of modules as a standalone SVG document, one unit per module plus
/// the quiet zone. The colours are part of the image, not the page's CSS, so
/// extensions like Dark Reader, which recolour the page, can't turn it into
/// something that no longer scans.
pub fn svg(width: usize, dark: &Vec<bool>) -> (r: String)
    requires
        0 < width,
        width + 2 * QUIET <= usize::MAX,
        dark@.len() == width * width,
    ensures
        r@ == svg_html(width, dark@),
{
    let mut d = String::new();
    let mut i: usize = 0;
    while i < dark.len()
        invariant
            0 < width,
            width + 2 * QUIET <= usize::MAX,
            dark@.len() == width * width,
            i <= dark@.len(),
            d@ == squares(width, dark@, i as nat),
        decreases dark@.len() - i,
    {
        let ghost before = d@;
        let mut square = String::new();
        if dark[i] {
            proof {
                assert((i as int) / (width as int) < width) by (nonlinear_arith)
                    requires
                        i < width * width,
                        width > 0,
                ;
            }
            let x: usize = i % width + QUIET;
            let y: usize = i / width + QUIET;
            square.append("M");
            assert(square@ =~= "M"@);
            push_decimal(&mut square, x as u64);
            square.append(" ");
            push_decimal(&mut square, y as u64);
            square.append("h1v1h-1z");
        }
        d.append(square.as_str());
        i += 1;
    }
    let size: usize = width + 2 * QUIET;
    let mut out = "<svg xmlns=\"http://www.w3.org/2000/svg\" viewBox=\"0 0 ".to_owned();
    push_decimal(&mut out, size as u64);
    out.append(" ");
    push_decimal(&mut out, size as u64);
    out.append("\" shape-rendering=\"crispEdges\"><rect width=\"");
    push_decimal(&mut out, size as u64);
    out.append("\" height=\"");
    push_decimal(&mut out, size as u64);
    out.append("\" fill=\"#fff\"></rect><path d=\"");
    push_escaped(&mut out, d.as_str());
    out.append("\" fill=\"#2f2f2f\"></path></svg>");
    out
}

/// A QR code as an SVG document. There is none for a URL that is too long.
pub fn qr_svg(url: &str) -> (r: Option<String>)
    ensures
        match qr_matrix(url@) {
            Some((width, dark)) => r is Some && r->0@ == svg_html(width, dark),
            None => r is None,
        },
{
    match qr_code(url) {
        Some((width, dark)) => Some(svg(width, &dark)),
        None => None,
    }
}

} // verus!
