//! What the pages promise those who look at them: which choice is marked,
//! which can be picked, who is on the leaderboard, and what stands where.

use crate::html::{
    address, answer_form_html, aside_html, brand_html, countdown_html, escaped, escaped_char,
    finish_html, game_html, head_html, heading_html, join_html, label_html, listed_html, logo_html,
    main_html, mark, nix32, outcome_html, page_html, places_html, radios_html, revealed_html,
    seconds_left, slide_shown_html, slop_warning_html, spectate_game_html, spectate_main_html,
    spectate_page_html, squares, standings_html, store_path_text, svg_html, tally_text_html,
    timer_html, voted_html, without_prefix, without_slashes, worth_html, LETTERS, NIX32,
};
use crate::slides::{fnv1a_of, Slide};
use crate::state::{total, worth, PhaseViewModel, StandingModel, ViewModel};
use crate::text::decimal;
use vstd::prelude::*;
use vstd::utf8::encode_utf8;

verus! {

// Pieces of a page

/// Whether a piece stands at this place of a page.
pub open spec fn stands_at(page: Seq<char>, piece: Seq<char>, at: int) -> bool {
    &&& 0 <= at <= page.len() - piece.len()
    &&& page.subrange(at, at + piece.len()) == piece
}

/// Whether a piece stands somewhere in a page.
pub open spec fn holds(page: Seq<char>, piece: Seq<char>) -> bool {
    exists|at: int| #[trigger] stands_at(page, piece, at)
}

/// What stands in a part of a page stands in the page.
pub broadcast proof fn parts_stand_in_the_whole(a: Seq<char>, b: Seq<char>, piece: Seq<char>)
    ensures
        holds(a, piece) || holds(b, piece) ==> #[trigger] holds(a + b, piece),
{
    let page = a + b;
    if holds(a, piece) {
        let at = choose|at: int| #[trigger] stands_at(a, piece, at);
        assert(page.subrange(at, at + piece.len()) =~= a.subrange(at, at + piece.len()));
        assert(stands_at(page, piece, at));
    }
    if holds(b, piece) {
        let at = choose|at: int| #[trigger] stands_at(b, piece, at);
        let n = a.len() as int;
        assert(page.subrange(n + at, n + at + piece.len()) =~= b.subrange(at, at + piece.len()));
        assert(stands_at(page, piece, n + at));
    }
}

proof fn holds_itself(piece: Seq<char>)
    ensures
        holds(piece, piece),
{
    assert(piece.subrange(0, piece.len() as int) =~= piece);
    assert(stands_at(piece, piece, 0));
}

proof fn regroup(a: Seq<char>, b: Seq<char>, c: Seq<char>)
    ensures
        a + b + c == a + (b + c),
{
    assert(a + b + c =~= a + (b + c));
}

// Choices

/// The letter before a choice.
pub open spec fn letter(i: int) -> char {
    ('A' as int + i) as char
}

/// The letter and the text of a choice.
pub open spec fn lettered(i: int, text: Seq<char>) -> Seq<char> {
    "<span class=\"letter\">"@ + seq![letter(i)] + "</span><span class=\"text\">"@ + escaped(text)
        + "</span>"@
}

proof fn labels_are_lettered(i: int, text: Seq<char>)
    requires
        0 <= i < 6,
    ensures
        label_html(i, text) == lettered(i, text),
{
    assert(LETTERS@[0] == 'A' && LETTERS@[1] == 'B' && LETTERS@[2] == 'C' && LETTERS@[3] == 'D'
        && LETTERS@[4] == 'E' && LETTERS@[5] == 'F');
    assert(letter(i) == LETTERS@[i]);
}

/// The row of a choice once the answer is out. The right one is marked as
/// correct, another that the reader picked as wrong.
pub open spec fn revealed_row(
    i: int,
    text: Seq<char>,
    is_right: bool,
    is_picked: bool,
    votes: u32,
    all: nat,
) -> Seq<char> {
    "<div class=\"choice revealed"@ + (if is_right {
        " correct"@
    } else if is_picked {
        " wrong"@
    } else {
        Seq::empty()
    }) + "\"><progress class=\"share\" value=\""@ + decimal(votes as nat) + "\" max=\""@ + decimal(
        if all > 1 {
            all
        } else {
            1
        },
    ) + "\"></progress>"@ + lettered(i, text) + "<span class=\"count\">"@ + decimal(votes as nat)
        + "</span></div>"@
}

proof fn voted_rows(
    choices: Seq<Seq<char>>,
    correct: usize,
    counts: Seq<u32>,
    answered: Option<usize>,
    rows: Seq<Seq<char>>,
    n: nat,
)
    requires
        n <= choices.len() <= 6,
        rows.len() == choices.len(),
        forall|i: int|
            0 <= i < rows.len() ==> #[trigger] rows[i] == revealed_row(
                i,
                choices[i],
                i == correct,
                answered == Some(i as usize),
                counts[i],
                total(counts),
            ),
    ensures
        voted_html(choices, correct, counts, answered, n) == rows.take(n as int).flatten_alt(),
    decreases n,
{
    let some = rows.take(n as int);
    if n > 0 {
        let i = n - 1;
        voted_rows(choices, correct, counts, answered, rows, i as nat);
        labels_are_lettered(i, choices[i]);
        assert(some.drop_last() =~= rows.take(i));
        assert(some.last() == rows[i]);
        let m = mark(i, correct, answered);
        assert(m == if i == correct {
            " correct"@
        } else if answered == Some(i as usize) {
            " wrong"@
        } else {
            Seq::empty()
        });
        let v = voted_html(choices, correct, counts, answered, i as nat);
        let max = if total(counts) > 1 {
            total(counts)
        } else {
            1
        };
        let count = decimal(counts[i] as nat);
        let r1 = "<div class=\"choice revealed"@ + m;
        let r2 = r1 + "\"><progress class=\"share\" value=\""@;
        let r3 = r2 + count;
        let r4 = r3 + "\" max=\""@;
        let r5 = r4 + decimal(max);
        let r6 = r5 + "\"></progress>"@;
        let r7 = r6 + label_html(i, choices[i]);
        let r8 = r7 + "<span class=\"count\">"@;
        let r9 = r8 + count;
        regroup(v, "<div class=\"choice revealed"@, m);
        regroup(v, r1, "\"><progress class=\"share\" value=\""@);
        regroup(v, r2, count);
        regroup(v, r3, "\" max=\""@);
        regroup(v, r4, decimal(max));
        regroup(v, r5, "\"></progress>"@);
        regroup(v, r6, label_html(i, choices[i]));
        regroup(v, r7, "<span class=\"count\">"@);
        regroup(v, r8, count);
        regroup(v, r9, "</span></div>"@);
        assert(rows[i] == r9 + "</span></div>"@);
    }
}

proof fn revealed_choices(
    choices: Seq<Seq<char>>,
    correct: usize,
    counts: Seq<u32>,
    answered: Option<usize>,
    rows: Seq<Seq<char>>,
)
    requires
        choices.len() <= 6,
        rows.len() == choices.len(),
        forall|i: int|
            0 <= i < rows.len() ==> #[trigger] rows[i] == revealed_row(
                i,
                choices[i],
                i == correct,
                answered == Some(i as usize),
                counts[i],
                total(counts),
            ),
    ensures
        revealed_html(choices, correct, counts, answered) == "<div class=\"choices\">"@
            + rows.flatten() + "</div>"@,
{
    voted_rows(choices, correct, counts, answered, rows, choices.len());
    assert(rows.take(rows.len() as int) =~= rows);
    rows.lemma_flatten_and_flatten_alt_are_equivalent();
}

/// A reveal on the livestream lists every choice in order with its letter, its
/// text and its votes, and marks as correct the right one and no other. Then
/// follows the explanation.
pub proof fn the_livestream_marks_the_right_choice(view: ViewModel, answered: nat, online: nat)
    requires
        view.phase is Reveal,
        view.phase->Reveal_choices.len() <= 6,
    ensures
        ({
            let choices = view.phase->Reveal_choices;
            let rows = Seq::new(
                choices.len(),
                |i: int|
                    revealed_row(
                        i,
                        choices[i],
                        i == view.phase->correct,
                        false,
                        view.phase->counts[i],
                        total(view.phase->counts),
                    ),
            );
            holds(
                spectate_game_html(view, answered, online),
                "<div class=\"choices\">"@ + rows.flatten() + "</div>"@
                    + "<p class=\"explanation\">"@ + escaped(view.phase->explanation) + "</p>"@,
            )
        }),
{
    broadcast use parts_stand_in_the_whole;

    let choices = view.phase->Reveal_choices;
    let rows = Seq::new(
        choices.len(),
        |i: int|
            revealed_row(
                i,
                choices[i],
                i == view.phase->correct,
                false,
                view.phase->counts[i],
                total(view.phase->counts),
            ),
    );
    revealed_choices(choices, view.phase->correct, view.phase->counts, None, rows);
    let piece = "<div class=\"choices\">"@ + rows.flatten() + "</div>"@
        + "<p class=\"explanation\">"@ + escaped(view.phase->explanation) + "</p>"@;
    let head = heading_html(
        view.phase->Reveal_number,
        view.phase->Reveal_of,
        view.phase->Reveal_text,
    );
    let rest = countdown_html(
        view.phase->Reveal_ends,
        view.now,
        "next question in "@,
        "s"@,
        false,
    );
    assert(spectate_main_html(view) =~= head + piece + rest);
    holds_itself(piece);
    assert(holds(spectate_main_html(view), piece));
}

/// A reveal on a player's page lists every choice in order with its letter,
/// its text and its votes, marks as correct the right one and no other, and as
/// wrong the player's own pick where it is another. It says what became of the
/// pick, and why the right choice is right.
pub proof fn a_players_reveal_marks_the_right_choice(view: ViewModel, url: Seq<char>)
    requires
        view.phase is Reveal,
        view.phase->Reveal_choices.len() <= 6,
    ensures
        ({
            let page = game_html(view, url);
            let choices = view.phase->Reveal_choices;
            let pick = view.phase->Reveal_answered;
            let rows = Seq::new(
                choices.len(),
                |i: int|
                    revealed_row(
                        i,
                        choices[i],
                        i == view.phase->correct,
                        pick == Some(i as usize),
                        view.phase->counts[i],
                        total(view.phase->counts),
                    ),
            );
            &&& holds(
                page,
                "<div class=\"choices\">"@ + rows.flatten() + "</div>"@
                    + "<p class=\"explanation\">"@ + escaped(view.phase->explanation) + "</p>"@,
            )
            &&& pick is None ==> holds(
                page,
                told("none"@, "no answer"@, "error: evaluation timed out"@),
            )
            &&& pick is Some && view.phase->gained is None ==> holds(
                page,
                told("bad"@, "wrong"@, "error: builder for 'answer.drv' failed"@),
            )
            &&& pick is Some && view.phase->gained is Some ==> holds(
                page,
                told(
                    "good"@,
                    "+"@ + decimal(view.phase->gained->0 as nat),
                    "build succeeded: "@ + decimal(500) + " for right + "@ + decimal(
                        (view.phase->gained->0 - 500) as nat,
                    ) + " for speed"@,
                ),
            )
        }),
{
    broadcast use parts_stand_in_the_whole;

    let phase = view.phase;
    let choices = phase->Reveal_choices;
    let pick = phase->Reveal_answered;
    let rows = Seq::new(
        choices.len(),
        |i: int|
            revealed_row(
                i,
                choices[i],
                i == phase->correct,
                pick == Some(i as usize),
                phase->counts[i],
                total(phase->counts),
            ),
    );
    revealed_choices(choices, phase->correct, phase->counts, pick, rows);
    let list = "<div class=\"choices\">"@ + rows.flatten() + "</div>"@;
    let why = escaped(phase->explanation);
    let outcome = outcome_html(pick, phase->gained);
    let head = heading_html(phase->Reveal_number, phase->Reveal_of, phase->Reveal_text) + outcome;
    regroup(head, list, "<p class=\"explanation\">"@);
    regroup(head, list + "<p class=\"explanation\">"@, why);
    regroup(head, list + "<p class=\"explanation\">"@ + why, "</p>"@);
    let piece = list + "<p class=\"explanation\">"@ + why + "</p>"@;
    holds_itself(piece);
    holds_itself(outcome);
    let main = main_html(view, view.me->0, url);
    assert(holds(head + piece, piece));
    assert(holds(main, piece));
    assert(holds(head, outcome));
    assert(holds(main, outcome));
}

/// What a page says of an answer: a headline and a line below it.
pub open spec fn told(class: Seq<char>, headline: Seq<char>, line: Seq<char>) -> Seq<char> {
    "<p class=\"result "@ + escaped(class) + "\"><span class=\"headline\">"@ + escaped(headline)
        + "</span><span class=\"log\">"@ + escaped(line) + "</span></p>"@
}

proof fn same_front(a: Seq<char>, x: Seq<char>, y: Seq<char>)
    requires
        a + x == a + y,
    ensures
        x == y,
{
    assert((a + x).skip(a.len() as int) =~= x);
    assert((a + y).skip(a.len() as int) =~= y);
}

proof fn same_back(x: Seq<char>, y: Seq<char>, b: Seq<char>)
    requires
        x + b == y + b,
    ensures
        x == y,
{
    assert((x + b).len() == x.len() + b.len() && (y + b).len() == y.len() + b.len());
    assert((x + b).take(x.len() as int) =~= x);
    assert((y + b).take(y.len() as int) =~= y);
}

proof fn marks_differ(tail: Seq<char>, other: Seq<char>, is_picked: bool)
    ensures
        "<div class=\"choice revealed"@ + " correct"@ + tail != "<div class=\"choice revealed"@ + (
        if is_picked {
            " wrong"@
        } else {
            Seq::empty()
        }) + ("\"><progress class=\"share\" value=\""@ + other),
{
    reveal_strlit(" correct");
    reveal_strlit(" wrong");
    reveal_strlit("\"><progress class=\"share\" value=\"");
    let start = "<div class=\"choice revealed"@;
    let n = start.len() as int;
    let a = start + " correct"@ + tail;
    let b = start + (if is_picked {
        " wrong"@
    } else {
        Seq::empty()
    }) + ("\"><progress class=\"share\" value=\""@ + other);
    assert(a[n + 1] == 'c');
    if is_picked {
        assert(b[n + 1] == 'w');
    } else {
        assert(b[n] == '"');
        assert(a[n] == ' ');
    }
}

/// Where a row is marked as correct in one list and not in another, the lists
/// differ.
proof fn rows_differ(
    a: Seq<Seq<char>>,
    b: Seq<Seq<char>>,
    choices: Seq<Seq<char>>,
    counts: Seq<u32>,
    answered: Option<usize>,
    right: int,
    other: int,
    k: int,
)
    requires
        0 <= k <= right < other < choices.len(),
        a.len() == choices.len(),
        b.len() == choices.len(),
        forall|i: int|
            0 <= i < a.len() ==> #[trigger] a[i] == revealed_row(
                i,
                choices[i],
                i == right,
                answered == Some(i as usize),
                counts[i],
                total(counts),
            ),
        forall|i: int|
            0 <= i < b.len() ==> #[trigger] b[i] == revealed_row(
                i,
                choices[i],
                i == other,
                answered == Some(i as usize),
                counts[i],
                total(counts),
            ),
    ensures
        a.skip(k).flatten() != b.skip(k).flatten(),
    decreases right - k,
{
    let x = a.skip(k);
    let y = b.skip(k);
    assert(x.first() == a[k] && y.first() == b[k]);
    assert(x.drop_first() =~= a.skip(k + 1));
    assert(y.drop_first() =~= b.skip(k + 1));
    if k < right {
        rows_differ(a, b, choices, counts, answered, right, other, k + 1);
        assert(a[k] == b[k]);
        if x.flatten() == y.flatten() {
            same_front(a[k], a.skip(k + 1).flatten(), b.skip(k + 1).flatten());
        }
    } else {
        let is_picked = answered == Some(k as usize);
        let m = if is_picked {
            " wrong"@
        } else {
            Seq::empty()
        };
        let max = if total(counts) > 1 {
            total(counts)
        } else {
            1
        };
        let start = "<div class=\"choice revealed"@;
        let lead = "\"><progress class=\"share\" value=\""@;
        let rest = decimal(counts[k] as nat) + "\" max=\""@ + decimal(max) + "\"></progress>"@
            + lettered(k, choices[k]) + "<span class=\"count\">"@ + decimal(counts[k] as nat)
            + "</span></div>"@;
        let p = a.skip(k + 1).flatten();
        let q = b.skip(k + 1).flatten();
        row_tail(start + " correct"@, k, choices[k], counts[k], max);
        row_tail(start + m, k, choices[k], counts[k], max);
        assert(a[k] == start + " correct"@ + (lead + rest));
        assert(b[k] == start + m + (lead + rest));
        regroup(start + " correct"@, lead + rest, p);
        regroup(start + m, lead + rest, q);
        regroup(lead, rest, q);
        marks_differ(lead + rest + p, rest + q, is_picked);
    }
}

proof fn row_tail(begin: Seq<char>, i: int, text: Seq<char>, votes: u32, max: nat)
    ensures
        begin + "\"><progress class=\"share\" value=\""@ + decimal(votes as nat) + "\" max=\""@
            + decimal(max) + "\"></progress>"@ + lettered(i, text) + "<span class=\"count\">"@
            + decimal(votes as nat) + "</span></div>"@ == begin + (
        "\"><progress class=\"share\" value=\""@ + (decimal(votes as nat) + "\" max=\""@ + decimal(
            max,
        ) + "\"></progress>"@ + lettered(i, text) + "<span class=\"count\">"@ + decimal(
            votes as nat,
        ) + "</span></div>"@)),
{
    let lead = "\"><progress class=\"share\" value=\""@;
    let count = decimal(votes as nat);
    let r1 = count + "\" max=\""@;
    let r2 = r1 + decimal(max);
    let r3 = r2 + "\"></progress>"@;
    let r4 = r3 + lettered(i, text);
    let r5 = r4 + "<span class=\"count\">"@;
    let r6 = r5 + count;
    let b = begin + lead;
    regroup(b, count, "\" max=\""@);
    regroup(b, r1, decimal(max));
    regroup(b, r2, "\"></progress>"@);
    regroup(b, r3, lettered(i, text));
    regroup(b, r4, "<span class=\"count\">"@);
    regroup(b, r5, count);
    regroup(b, r6, "</span></div>"@);
    regroup(begin, lead, r6 + "</span></div>"@);
}

proof fn reveals_differ(
    choices: Seq<Seq<char>>,
    counts: Seq<u32>,
    answered: Option<usize>,
    right: usize,
    other: usize,
)
    requires
        right != other,
        right < choices.len() <= 6,
        other < choices.len(),
    ensures
        revealed_html(choices, right, counts, answered) != revealed_html(
            choices,
            other,
            counts,
            answered,
        ),
{
    let a = Seq::new(
        choices.len(),
        |i: int|
            revealed_row(
                i,
                choices[i],
                i == right,
                answered == Some(i as usize),
                counts[i],
                total(counts),
            ),
    );
    let b = Seq::new(
        choices.len(),
        |i: int|
            revealed_row(
                i,
                choices[i],
                i == other,
                answered == Some(i as usize),
                counts[i],
                total(counts),
            ),
    );
    revealed_choices(choices, right, counts, answered, a);
    revealed_choices(choices, other, counts, answered, b);
    assert(a.skip(0) =~= a);
    assert(b.skip(0) =~= b);
    if right < other {
        rows_differ(a, b, choices, counts, answered, right as int, other as int, 0);
    } else {
        rows_differ(b, a, choices, counts, answered, other as int, right as int, 0);
    }
    let open = "<div class=\"choices\">"@;
    if open + a.flatten() + "</div>"@ == open + b.flatten() + "</div>"@ {
        same_back(open + a.flatten(), open + b.flatten(), "</div>"@);
        same_front(open, a.flatten(), b.flatten());
    }
}

/// Two reveals that differ in which choice is correct look different, on the
/// livestream and to every player.
pub proof fn the_right_choice_makes_a_difference(
    a: ViewModel,
    b: ViewModel,
    answered: nat,
    online: nat,
    url: Seq<char>,
)
    requires
        a.phase is Reveal,
        b.phase is Reveal,
        a.phase->correct != b.phase->correct,
        a == (ViewModel { phase: a.phase, ..b }),
        a.phase == (PhaseViewModel::Reveal {
            number: b.phase->Reveal_number,
            of: b.phase->Reveal_of,
            text: b.phase->Reveal_text,
            choices: b.phase->Reveal_choices,
            ends: b.phase->Reveal_ends,
            correct: a.phase->correct,
            counts: b.phase->counts,
            explanation: b.phase->explanation,
            answered: b.phase->Reveal_answered,
            gained: b.phase->gained,
        }),
        a.phase->correct < a.phase->Reveal_choices.len() <= 6,
        b.phase->correct < b.phase->Reveal_choices.len(),
    ensures
        spectate_game_html(a, answered, online) != spectate_game_html(b, answered, online),
        game_html(a, url) != game_html(b, url),
{
    let choices = a.phase->Reveal_choices;
    let counts = a.phase->counts;
    let pick = a.phase->Reveal_answered;
    let head = heading_html(a.phase->Reveal_number, a.phase->Reveal_of, a.phase->Reveal_text);
    let why = escaped(a.phase->explanation);
    let clock = countdown_html(a.phase->Reveal_ends, a.now, "next question in "@, "s"@, false);
    let open = "<p class=\"explanation\">"@;
    reveals_differ(choices, counts, None, a.phase->correct, b.phase->correct);
    reveals_differ(choices, counts, pick, a.phase->correct, b.phase->correct);
    let x = revealed_html(choices, a.phase->correct, counts, None);
    let y = revealed_html(choices, b.phase->correct, counts, None);
    if spectate_main_html(a) == spectate_main_html(b) {
        same_back(head + x + open + why + "</p>"@, head + y + open + why + "</p>"@, clock);
        same_back(head + x + open + why, head + y + open + why, "</p>"@);
        same_back(head + x + open, head + y + open, why);
        same_back(head + x, head + y, open);
        same_front(head, x, y);
    }
    let both = head + outcome_html(pick, a.phase->gained);
    let x = revealed_html(choices, a.phase->correct, counts, pick);
    let y = revealed_html(choices, b.phase->correct, counts, pick);
    let me = a.me->0;
    if main_html(a, me, url) == main_html(b, me, url) {
        same_back(both + x + open + why + "</p>"@, both + y + open + why + "</p>"@, clock);
        same_back(both + x + open + why, both + y + open + why, "</p>"@);
        same_back(both + x + open, both + y + open, why);
        same_back(both + x, both + y, open);
        same_front(both, x, y);
    }
    whole_pages_differ(a, b, answered, online, url);
}

proof fn whole_pages_differ(
    a: ViewModel,
    b: ViewModel,
    answered: nat,
    online: nat,
    url: Seq<char>,
)
    requires
        a.phase is Reveal,
        b.phase is Reveal,
        a == (ViewModel { phase: a.phase, ..b }),
        spectate_main_html(a) != spectate_main_html(b),
        main_html(a, a.me->0, url) != main_html(b, b.me->0, url),
    ensures
        spectate_game_html(a, answered, online) != spectate_game_html(b, answered, online),
        game_html(a, url) != game_html(b, url),
{
    let x = spectate_main_html(a);
    let y = spectate_main_html(b);
    let front = brand_html(a) + "<span id=\"tally\" sse-swap=\"tally\">"@ + escaped(
        tally_text_html(answered, online, a.phase),
    ) + "</span></header>"@ + timer_html(a.phase) + "<main>"@;
    assert(spectate_game_html(a, answered, online) == front + x + "</main></div>"@);
    assert(spectate_game_html(b, answered, online) == front + y + "</main></div>"@);
    if front + x + "</main></div>"@ == front + y + "</main></div>"@ {
        same_back(front + x, front + y, "</main></div>"@);
        same_front(front, x, y);
    }
    let me = a.me->0;
    let x = main_html(a, me, url);
    let y = main_html(b, me, url);
    let front = brand_html(a) + "<div id=\"me\"><span id=\"name\">"@ + escaped(me.name)
        + "</span><span id=\"standing\">"@ + decimal(me.score as nat) + " pts"@ + match me.rank {
        Some(rank) => " · #"@ + decimal(rank),
        None => Seq::empty(),
    } + "</span></div></header>"@ + timer_html(a.phase) + "<main>"@;
    let s1 = "</main><footer><span>"@;
    let s2 = decimal(a.online);
    let s3 = " online</span>"@;
    let s4 = slop_warning_html();
    let s5 = "</footer></div>"@;
    assert(game_html(a, url) == front + x + s1 + s2 + s3 + s4 + s5);
    assert(game_html(b, url) == front + y + s1 + s2 + s3 + s4 + s5);
    if front + x + s1 + s2 + s3 + s4 + s5 == front + y + s1 + s2 + s3 + s4 + s5 {
        same_back(front + x + s1 + s2 + s3 + s4, front + y + s1 + s2 + s3 + s4, s5);
        same_back(front + x + s1 + s2 + s3, front + y + s1 + s2 + s3, s4);
        same_back(front + x + s1 + s2, front + y + s1 + s2, s3);
        same_back(front + x + s1, front + y + s1, s2);
        same_back(front + x, front + y, s1);
        same_front(front, x, y);
    }
}

// Open questions

proof fn radio_rows(
    choices: Seq<Seq<char>>,
    answered: Option<usize>,
    rows: Seq<Seq<char>>,
    n: nat,
)
    requires
        n <= choices.len() <= 6,
        rows.len() == choices.len(),
        forall|i: int|
            0 <= i < rows.len() ==> #[trigger] rows[i] == choice_to_pick(
                i,
                choices[i],
                answered == Some(i as usize),
            ),
    ensures
        radios_html(choices, answered, n) == rows.take(n as int).flatten_alt(),
    decreases n,
{
    let some = rows.take(n as int);
    if n > 0 {
        let i = n - 1;
        radio_rows(choices, answered, rows, i as nat);
        labels_are_lettered(i, choices[i]);
        assert(some.drop_last() =~= rows.take(i));
        assert(some.last() == rows[i]);
        let v = radios_html(choices, answered, i as nat);
        let checked = if answered == Some(i as usize) {
            " checked"@
        } else {
            Seq::empty()
        };
        let r0 = "<label class=\"choice\"><input type=\"radio\" name=\"choice\" value=\""@;
        let r1 = r0 + decimal(i as nat);
        let r2 = r1 + "\""@;
        let r3 = r2 + checked;
        let r4 = r3 + ">"@;
        let r5 = r4 + label_html(i, choices[i]);
        regroup(v, r0, decimal(i as nat));
        regroup(v, r1, "\""@);
        regroup(v, r2, checked);
        regroup(v, r3, ">"@);
        regroup(v, r4, label_html(i, choices[i]));
        regroup(v, r5, "</label>"@);
        assert(rows[i] == r5 + "</label>"@);
    }
}

/// A choice that can be picked: a button that sends its number, checked where
/// it is the player's pick.
pub open spec fn choice_to_pick(i: int, text: Seq<char>, is_picked: bool) -> Seq<char> {
    "<label class=\"choice\"><input type=\"radio\" name=\"choice\" value=\""@ + decimal(i as nat)
        + "\""@ + (if is_picked {
        " checked"@
    } else {
        Seq::empty()
    }) + ">"@ + lettered(i, text) + "</label>"@
}

/// The page of an open question has a button for every choice in order, and
/// only the player's pick is checked. The form quotes the question, goes to
/// the address for answers, and is closed once the time is up.
pub proof fn every_choice_can_be_picked(view: ViewModel, url: Seq<char>)
    requires
        view.phase is Question,
        view.phase->Question_choices.len() <= 6,
    ensures
        ({
            let choices = view.phase->Question_choices;
            let pick = view.phase->Question_answered;
            let rows = Seq::new(
                choices.len(),
                |i: int| choice_to_pick(i, choices[i], pick == Some(i as usize)),
            );
            holds(
                game_html(view, url),
                "<form id=\"answer\" hx-post=\""@ + escaped(url)
                    + "\" hx-trigger=\"change\" hx-swap=\"none\" hx-sync=\"this:queue last\""@ + (
                match pick {
                    Some(i) => " data-saved=\""@ + decimal(i as nat) + "\""@,
                    None => Seq::empty(),
                }) + "><input type=\"hidden\" name=\"seq\" value=\""@ + decimal(
                    view.phase->seq as nat,
                ) + "\"><fieldset class=\"choices\" data-closes=\""@ + decimal(
                    view.phase->Question_ends as nat,
                ) + "\""@ + (if view.now >= view.phase->Question_ends {
                    " disabled"@
                } else {
                    Seq::empty()
                }) + ">"@ + rows.flatten() + "</fieldset>"@,
            )
        }),
{
    broadcast use parts_stand_in_the_whole;

    let choices = view.phase->Question_choices;
    let pick = view.phase->Question_answered;
    let rows = Seq::new(
        choices.len(),
        |i: int| choice_to_pick(i, choices[i], pick == Some(i as usize)),
    );
    radio_rows(choices, pick, rows, choices.len());
    assert(rows.take(rows.len() as int) =~= rows);
    rows.lemma_flatten_and_flatten_alt_are_equivalent();
    let piece = "<form id=\"answer\" hx-post=\""@ + escaped(url)
        + "\" hx-trigger=\"change\" hx-swap=\"none\" hx-sync=\"this:queue last\""@ + (match pick {
        Some(i) => " data-saved=\""@ + decimal(i as nat) + "\""@,
        None => Seq::empty(),
    }) + "><input type=\"hidden\" name=\"seq\" value=\""@ + decimal(view.phase->seq as nat)
        + "\"><fieldset class=\"choices\" data-closes=\""@ + decimal(
        view.phase->Question_ends as nat,
    ) + "\""@ + (if view.now >= view.phase->Question_ends {
        " disabled"@
    } else {
        Seq::empty()
    }) + ">"@ + rows.flatten() + "</fieldset>"@;
    holds_itself(piece);
    let form = answer_form_html(url, view.phase, view.now);
    assert(holds(form, piece));
    assert(holds(main_html(view, view.me->0, url), piece));
}

/// The page of an open question says what a right answer would earn: the
/// points of the player's pick, or without one those of a pick made now. The
/// browser is given what it takes to go on counting.
pub proof fn the_page_says_what_an_answer_earns(view: ViewModel, url: Seq<char>)
    requires
        view.phase is Question,
    ensures
        ({
            let points = match view.phase->pick_points {
                Some(points) => points,
                None => worth(view.phase->started, view.phase->Question_ends, view.now),
            };
            holds(
                game_html(view, url),
                "<p class=\"worth\" data-started=\""@ + decimal(view.phase->started as nat)
                    + "\" data-ends=\""@ + decimal(view.phase->Question_ends as nat)
                    + "\" data-base=\""@ + decimal(500) + "\" data-speed=\""@ + decimal(500)
                    + "\""@ + (match view.phase->pick_points {
                    Some(picked) => " data-picked=\""@ + decimal(picked as nat) + "\""@,
                    None => Seq::empty(),
                }) + "><span class=\"value\">+"@ + decimal(points as nat)
                    + "</span><span class=\"live\">for a right answer now</span><span class=\"locked\">if your pick is right</span><span class=\"rule\">"@
                    + decimal(500) + " for right + up to "@ + decimal(500)
                    + " for speed</span></p>"@,
            )
        }),
{
    broadcast use parts_stand_in_the_whole;

    let phase = view.phase;
    let all = worth_html(phase->pick_points, phase->started, phase->Question_ends, view.now);
    holds_itself(all);
    assert(holds(answer_form_html(url, phase, view.now), all));
    assert(holds(main_html(view, view.me->0, url), all));
}

proof fn listed_rows(choices: Seq<Seq<char>>, rows: Seq<Seq<char>>, n: nat)
    requires
        n <= choices.len() <= 6,
        rows.len() == choices.len(),
        forall|i: int|
            0 <= i < rows.len() ==> #[trigger] rows[i] == "<div class=\"choice\">"@ + lettered(
                i,
                choices[i],
            ) + "</div>"@,
    ensures
        listed_html(choices, n) == rows.take(n as int).flatten_alt(),
    decreases n,
{
    let some = rows.take(n as int);
    if n > 0 {
        let i = n - 1;
        listed_rows(choices, rows, i as nat);
        labels_are_lettered(i, choices[i]);
        assert(some.drop_last() =~= rows.take(i));
        assert(some.last() == rows[i]);
        let v = listed_html(choices, i as nat);
        let r0 = "<div class=\"choice\">"@;
        let r1 = r0 + label_html(i, choices[i]);
        regroup(v, r0, label_html(i, choices[i]));
        regroup(v, r1, "</div>"@);
        assert(rows[i] == r1 + "</div>"@);
    }
}

/// The livestream lists every choice of an open question, in order.
pub proof fn the_livestream_lists_every_choice(view: ViewModel, answered: nat, online: nat)
    requires
        view.phase is Question,
        view.phase->Question_choices.len() <= 6,
    ensures
        ({
            let choices = view.phase->Question_choices;
            let rows = Seq::new(
                choices.len(),
                |i: int| "<div class=\"choice\">"@ + lettered(i, choices[i]) + "</div>"@,
            );
            holds(
                spectate_game_html(view, answered, online),
                "<div class=\"choices\">"@ + rows.flatten() + "</div>"@,
            )
        }),
{
    broadcast use parts_stand_in_the_whole;

    let choices = view.phase->Question_choices;
    let rows = Seq::new(
        choices.len(),
        |i: int| "<div class=\"choice\">"@ + lettered(i, choices[i]) + "</div>"@,
    );
    listed_rows(choices, rows, choices.len());
    assert(rows.take(rows.len() as int) =~= rows);
    rows.lemma_flatten_and_flatten_alt_are_equivalent();
    let head = heading_html(
        view.phase->Question_number,
        view.phase->Question_of,
        view.phase->Question_text,
    );
    let open = "<div class=\"choices\">"@;
    regroup(head, open, rows.flatten());
    regroup(head, open + rows.flatten(), "</div>"@);
    let piece = open + rows.flatten() + "</div>"@;
    holds_itself(piece);
    assert(holds(spectate_main_html(view), piece));
}

/// The question is asked, on every screen that shows it.
pub proof fn the_question_is_asked(view: ViewModel, url: Seq<char>, answered: nat, online: nat)
    requires
        !(view.phase is Leaderboard),
    ensures
        ({
            let text = match view.phase {
                PhaseViewModel::Question { text, .. } => text,
                PhaseViewModel::Reveal { text, .. } => text,
                _ => Seq::empty(),
            };
            let piece = "<h2 class=\"question\">"@ + escaped(text) + "</h2>"@;
            &&& holds(game_html(view, url), "</p>"@ + piece)
            &&& holds(spectate_game_html(view, answered, online), "</p>"@ + piece)
        }),
{
    broadcast use parts_stand_in_the_whole;

    let (number, of, text) = match view.phase {
        PhaseViewModel::Question { number, of, text, .. } => (number, of, text),
        PhaseViewModel::Reveal { number, of, text, .. } => (number, of, text),
        _ => (0, 0, Seq::empty()),
    };
    reveal_strlit("</p><h2 class=\"question\">");
    reveal_strlit("</p>");
    reveal_strlit("<h2 class=\"question\">");
    let p = "</p><h2 class=\"question\">"@;
    assert(p =~= "</p>"@ + "<h2 class=\"question\">"@);
    let front = "<p class=\"label\">"@ + escaped(store_path_text(text, number, of));
    regroup(front, p, escaped(text));
    regroup(front, p + escaped(text), "</h2>"@);
    regroup("</p>"@, "<h2 class=\"question\">"@, escaped(text));
    regroup("</p>"@, "<h2 class=\"question\">"@ + escaped(text), "</h2>"@);
    let piece = p + escaped(text) + "</h2>"@;
    holds_itself(piece);
    let head = heading_html(number, of, text);
    assert(head == front + p + escaped(text) + "</h2>"@);
    assert(holds(head, piece));
    assert(holds(main_html(view, view.me->0, url), piece));
    assert(holds(spectate_main_html(view), piece));
}

// Leaderboards

proof fn place_rows(top: Seq<StandingModel>, me: Option<u64>, rows: Seq<Seq<char>>, n: nat)
    requires
        n <= top.len(),
        rows.len() == top.len(),
        forall|i: int|
            0 <= i < rows.len() ==> #[trigger] rows[i] == place_row(top[i], me == Some(top[i].id)),
    ensures
        places_html(top, me, n) == rows.take(n as int).flatten_alt(),
    decreases n,
{
    let some = rows.take(n as int);
    if n > 0 {
        let i = n - 1;
        let entry = top[i];
        place_rows(top, me, rows, i as nat);
        assert(some.drop_last() =~= rows.take(i));
        assert(some.last() == rows[i]);
        let v = places_html(top, me, i as nat);
        let mine = if me == Some(entry.id) {
            "me"@
        } else {
            Seq::empty()
        };
        let r0 = "<li class=\""@;
        let r1 = r0 + mine;
        let r2 = r1 + "\"><span class=\"rank\">#"@;
        let r3 = r2 + decimal(entry.rank);
        let r4 = r3 + "</span><span class=\"who\">"@;
        let r5 = r4 + escaped(entry.name);
        let r6 = r5 + "</span><span class=\"points\">"@;
        let r7 = r6 + decimal(entry.score as nat);
        regroup(v, r0, mine);
        regroup(v, r1, "\"><span class=\"rank\">#"@);
        regroup(v, r2, decimal(entry.rank));
        regroup(v, r3, "</span><span class=\"who\">"@);
        regroup(v, r4, escaped(entry.name));
        regroup(v, r5, "</span><span class=\"points\">"@);
        regroup(v, r6, decimal(entry.score as nat));
        regroup(v, r7, "</span></li>"@);
        assert(rows[i] == r7 + "</span></li>"@);
    }
}

/// A place of the leaderboard: rank, name and points, and whether it is the
/// reader's own.
pub open spec fn place_row(entry: StandingModel, is_me: bool) -> Seq<char> {
    "<li class=\""@ + (if is_me {
        "me"@
    } else {
        Seq::empty()
    }) + "\"><span class=\"rank\">#"@ + decimal(entry.rank) + "</span><span class=\"who\">"@
        + escaped(entry.name) + "</span><span class=\"points\">"@ + decimal(entry.score as nat)
        + "</span></li>"@
}

proof fn standings_rows(top: Seq<StandingModel>, me: Option<u64>, rows: Seq<Seq<char>>)
    requires
        rows.len() == top.len(),
        forall|i: int|
            0 <= i < rows.len() ==> #[trigger] rows[i] == place_row(top[i], me == Some(top[i].id)),
    ensures
        standings_html(top, me) == if top.len() == 0 {
            "<p class=\"status\">Nobody scored this round.</p>"@
        } else {
            "<ol class=\"leaderboard\">"@ + rows.flatten() + "</ol>"@
        },
{
    place_rows(top, me, rows, top.len());
    assert(rows.take(rows.len() as int) =~= rows);
    rows.lemma_flatten_and_flatten_alt_are_equivalent();
}

/// After a round every screen lists the places in order, or says that nobody
/// scored; a player's own place is marked, on the livestream none. Players are
/// also told how the round went for them.
pub proof fn the_leaderboard_is_shown(view: ViewModel, url: Seq<char>, answered: nat, online: nat)
    requires
        view.phase is Leaderboard,
    ensures
        ({
            let top = view.phase->top;
            let me = view.me->0;
            let mine = Seq::new(top.len(), |i: int| place_row(top[i], top[i].id == me.id));
            let rows = Seq::new(top.len(), |i: int| place_row(top[i], false));
            let page = game_html(view, url);
            let screen = spectate_game_html(view, answered, online);
            &&& top.len() == 0 ==> {
                &&& holds(page, "<p class=\"status\">Nobody scored this round.</p>"@)
                &&& holds(screen, "<p class=\"status\">Nobody scored this round.</p>"@)
            }
            &&& top.len() > 0 ==> {
                &&& holds(page, "<ol class=\"leaderboard\">"@ + mine.flatten() + "</ol>"@)
                &&& holds(screen, "<ol class=\"leaderboard\">"@ + rows.flatten() + "</ol>"@)
            }
            &&& me.rank is Some ==> holds(
                page,
                "<p class=\"status\">"@ + ("You finished #"@ + decimal(me.rank->0) + " of "@
                    + decimal(view.phase->players) + " with "@ + decimal(me.score as nat)
                    + " points"@) + "</p>"@,
            )
            &&& me.rank is None ==> holds(
                page,
                "<p class=\"status\">"@ + "No points for you this round. Next one!"@ + "</p>"@,
            )
        }),
{
    broadcast use parts_stand_in_the_whole;

    let top = view.phase->top;
    let me = view.me->0;
    let mine = Seq::new(top.len(), |i: int| place_row(top[i], top[i].id == me.id));
    let rows = Seq::new(top.len(), |i: int| place_row(top[i], false));
    standings_rows(top, Some(me.id), mine);
    standings_rows(top, None, rows);
    let a = standings_html(top, Some(me.id));
    let b = standings_html(top, None);
    let c = finish_html(me, view.phase->players);
    holds_itself(a);
    holds_itself(b);
    holds_itself(c);
    assert(holds(main_html(view, me, url), a));
    assert(holds(main_html(view, me, url), c));
    assert(holds(spectate_main_html(view), b));
}

// Around the game

/// A player's page shows their name, their points and, if they have one, their
/// rank; the time and the phase, for the clock of the browser; and how many
/// are online.
pub proof fn players_see_their_own_standing(view: ViewModel, url: Seq<char>)
    ensures
        ({
            let me = view.me->0;
            let page = game_html(view, url);
            &&& holds(
                page,
                "<div id=\"me\"><span id=\"name\">"@ + escaped(me.name)
                    + "</span><span id=\"standing\">"@ + decimal(me.score as nat) + " pts"@ + (
                match me.rank {
                    Some(rank) => " · #"@ + decimal(rank),
                    None => Seq::empty(),
                }) + "</span></div></header>"@,
            )
            &&& holds(
                page,
                "</main><footer><span>"@ + decimal(view.online) + " online</span>"@,
            )
        }),
{
    broadcast use parts_stand_in_the_whole;

    let me = view.me->0;
    let v = brand_html(view);
    let place = match me.rank {
        Some(rank) => " · #"@ + decimal(rank),
        None => Seq::empty(),
    };
    let p0 = "<div id=\"me\"><span id=\"name\">"@;
    let p1 = p0 + escaped(me.name);
    let p2 = p1 + "</span><span id=\"standing\">"@;
    let p3 = p2 + decimal(me.score as nat);
    let p4 = p3 + " pts"@;
    let p5 = p4 + place;
    let piece = p5 + "</span></div></header>"@;
    regroup(v, p0, escaped(me.name));
    regroup(v, p1, "</span><span id=\"standing\">"@);
    regroup(v, p2, decimal(me.score as nat));
    regroup(v, p3, " pts"@);
    regroup(v, p4, place);
    regroup(v, p5, "</span></div></header>"@);
    holds_itself(piece);
    assert(holds(v + piece, piece));
    let front = v + piece + timer_html(view.phase) + "<main>"@ + main_html(view, me, url);
    let q0 = "</main><footer><span>"@;
    let last = q0 + decimal(view.online) + " online</span>"@;
    regroup(front, q0, decimal(view.online));
    regroup(front, q0 + decimal(view.online), " online</span>"@);
    holds_itself(last);
    assert(holds(front + last, last));
    assert(game_html(view, url) == front + last + slop_warning_html() + "</footer></div>"@);
}

/// Every screen begins with the time at which it was drawn, the phase and the
/// title, and has a bar that runs from the start of an open question to its
/// end.
pub proof fn every_screen_has_the_clock(view: ViewModel, url: Seq<char>, answered: nat, online: nat)
    ensures
        ({
            let phase = match view.phase {
                PhaseViewModel::Question { .. } => "question"@,
                PhaseViewModel::Reveal { .. } => "reveal"@,
                PhaseViewModel::Leaderboard { .. } => "leaderboard"@,
            };
            let top = "<div class=\"view\" data-now=\""@ + decimal(view.now as nat)
                + "\" data-phase=\""@ + escaped(phase) + "\"><header><div class=\"brand\">"@
                + logo_html() + "<h1>"@ + escaped(view.title) + "</h1></div>"@;
            let bar = match view.phase {
                PhaseViewModel::Question { started, ends, .. } =>
                    "<div id=\"timer\" aria-hidden=\"true\"><div id=\"bar\" data-started=\""@
                    + decimal(started as nat) + "\" data-ends=\""@ + decimal(ends as nat)
                    + "\"></div></div>"@,
                _ => "<div id=\"timer\" aria-hidden=\"true\"><div id=\"bar\"></div></div>"@,
            };
            &&& holds(game_html(view, url), top)
            &&& holds(spectate_game_html(view, answered, online), top)
            &&& holds(game_html(view, url), bar)
            &&& holds(spectate_game_html(view, answered, online), bar)
        }),
{
    broadcast use parts_stand_in_the_whole;

    let top = brand_html(view);
    let bar = timer_html(view.phase);
    holds_itself(top);
    holds_itself(bar);
    assert(holds(game_html(view, url), top));
    assert(holds(game_html(view, url), bar));
    assert(holds(spectate_game_html(view, answered, online), top));
    assert(holds(spectate_game_html(view, answered, online), bar));
}

/// Every screen says in how many seconds the phase ends, and gives the browser
/// the end to count down to.
pub proof fn every_screen_counts_down(view: ViewModel, url: Seq<char>, answered: nat, online: nat)
    ensures
        ({
            let (ends, before, big) = match view.phase {
                PhaseViewModel::Question { ends, .. } => (ends, ""@, " big"@),
                PhaseViewModel::Reveal { ends, .. } => (
                    ends,
                    "next question in "@,
                    Seq::<char>::empty(),
                ),
                PhaseViewModel::Leaderboard { ends, .. } => (
                    ends,
                    "next round in "@,
                    Seq::<char>::empty(),
                ),
            };
            let piece = "<p class=\"countdown"@ + big + "\" data-ends=\""@ + decimal(ends as nat)
                + "\" data-label=\""@ + escaped(before + "{}"@ + "s"@) + "\">"@ + escaped(
                before + decimal(seconds_left(ends, view.now)) + "s"@,
            ) + "</p>"@;
            &&& holds(game_html(view, url), piece)
            &&& holds(spectate_game_html(view, answered, online), piece)
        }),
{
    broadcast use parts_stand_in_the_whole;

    let (ends, before, is_big) = match view.phase {
        PhaseViewModel::Question { ends, .. } => (ends, ""@, true),
        PhaseViewModel::Reveal { ends, .. } => (ends, "next question in "@, false),
        PhaseViewModel::Leaderboard { ends, .. } => (ends, "next round in "@, false),
    };
    let piece = countdown_html(ends, view.now, before, "s"@, is_big);
    holds_itself(piece);
    assert(holds(main_html(view, view.me->0, url), piece));
    assert(holds(spectate_main_html(view), piece));
}

/// The seconds left are those until the end, of which the last may be a part
/// of one; none once it has come.
pub proof fn seconds_are_rounded_up(ends: u64, now: u64)
    ensures
        now >= ends ==> seconds_left(ends, now) == 0,
        now < ends ==> 1000 * (seconds_left(ends, now) - 1) < ends - now <= 1000 * seconds_left(
            ends,
            now,
        ),
{
}

/// The livestream says how many have answered, while there is a question, and
/// how many are online.
pub proof fn the_livestream_counts(view: ViewModel, answered: nat, online: nat)
    ensures
        tally_text_html(answered, online, view.phase) == if view.phase is Leaderboard {
            decimal(online) + " online"@
        } else {
            decimal(answered) + " answered · "@ + decimal(online) + " online"@
        },
        holds(
            spectate_game_html(view, answered, online),
            "<span id=\"tally\" sse-swap=\"tally\">"@ + escaped(
                tally_text_html(answered, online, view.phase),
            ) + "</span></header>"@,
        ),
{
    broadcast use parts_stand_in_the_whole;

    let v = brand_html(view);
    let p0 = "<span id=\"tally\" sse-swap=\"tally\">"@;
    let text = escaped(tally_text_html(answered, online, view.phase));
    regroup(v, p0, text);
    regroup(v, p0 + text, "</span></header>"@);
    let piece = p0 + text + "</span></header>"@;
    holds_itself(piece);
    assert(holds(v + piece, piece));
}

// Whole pages

/// A player's page has the title, the game as they see it, and a stream of
/// events that is told which state the page shows.
pub proof fn a_page_shows_the_game(
    view: ViewModel,
    events_url: Seq<char>,
    answer_url: Seq<char>,
    seen: Seq<char>,
)
    ensures
        ({
            let page = page_html(view, events_url, answer_url, seen);
            &&& holds(page, game_html(view, answer_url))
            &&& holds(
                page,
                "<body><div id=\"game\" hx-ext=\"sse\" sse-connect=\""@ + escaped(events_url)
                    + "?seen="@ + escaped(seen) + "\" sse-swap=\"message\">"@,
            )
            &&& holds(page, escaped(view.title) + "</title>"@)
        }),
{
    broadcast use parts_stand_in_the_whole;

    let game = game_html(view, answer_url);
    let v = "<!DOCTYPE html><html lang=\"en\">"@ + head_html(view.title);
    let p0 = "<body><div id=\"game\" hx-ext=\"sse\" sse-connect=\""@;
    let p1 = p0 + escaped(events_url);
    let p2 = p1 + "?seen="@;
    let p3 = p2 + escaped(seen);
    let piece = p3 + "\" sse-swap=\"message\">"@;
    regroup(v, p0, escaped(events_url));
    regroup(v, p1, "?seen="@);
    regroup(v, p2, escaped(seen));
    regroup(v, p3, "\" sse-swap=\"message\">"@);
    holds_itself(game);
    holds_itself(piece);
    assert(holds(v + piece, piece));
    titles_are_shown(view.title);
    assert(holds(v, escaped(view.title) + "</title>"@));
    assert(holds(page_html(view, events_url, answer_url, seen), piece));
    assert(holds(
        page_html(view, events_url, answer_url, seen),
        escaped(view.title) + "</title>"@,
    ));
}

proof fn titles_are_shown(title: Seq<char>)
    ensures
        holds(head_html(title), escaped(title) + "</title>"@),
{
    broadcast use parts_stand_in_the_whole;

    reveal_strlit("</title><link rel=\"stylesheet\" href=\"/style.css\"><script src=\"");
    reveal_strlit("</title>");
    let rest = "</title><link rel=\"stylesheet\" href=\"/style.css\"><script src=\""@;
    let more = rest.skip(8);
    assert(rest =~= "</title>"@ + more);
    let front =
        "<head><meta charset=\"utf-8\"><meta name=\"viewport\" content=\"width=device-width, initial-scale=1\"><meta name=\"color-scheme\" content=\"light\"><meta name=\"htmx-config\" content=\"{&quot;includeIndicatorStyles&quot;:false,&quot;allowEval&quot;:false,&quot;attributesToSettle&quot;:[&quot;class&quot;]}\"><title>"@;
    let piece = escaped(title) + "</title>"@;
    regroup(front, escaped(title), rest);
    regroup(escaped(title), "</title>"@, more);
    holds_itself(piece);
    assert(holds(escaped(title) + rest, piece));
    assert(holds(front + escaped(title) + rest, piece));
}

/// The livestream screen has the title, the game as nobody in particular sees
/// it, the current slide on a screen that has slides, and how to join: the
/// code to scan and the address to type.
pub proof fn the_livestream_says_how_to_join(
    view: ViewModel,
    answered: nat,
    online: nat,
    events_url: Seq<char>,
    qr_url: Seq<char>,
    join: Seq<char>,
    slide: Option<Option<&Slide>>,
)
    ensures
        ({
            let page = spectate_page_html(
                view,
                answered,
                online,
                events_url,
                qr_url,
                join,
                slide,
            );
            &&& holds(page, spectate_game_html(view, answered, online))
            &&& holds(page, escaped(view.title) + "</title>"@)
            &&& holds(
                page,
                "<aside class=\"join\"><img class=\"qr\" src=\""@ + escaped(qr_url)
                    + "\" alt=\"QR code for "@ + escaped(join)
                    + "\"><div class=\"how\"><p class=\"label\">join the quiz</p><p class=\"url\">"@
                    + escaped(address(join))
                    + "</p><p class=\"hint\">scan the code or open the address on your phone</p>"@,
            )
            &&& slide matches Some(Some(s)) ==> holds(
                page,
                "<aside id=\"slide\" sse-swap=\"slide\">"@ + ("<img src=\"/slides/"@ + escaped(
                    s.name@,
                ) + "\" alt=\""@ + escaped(s.alt@) + "\">"@) + "</aside>"@,
            )
            &&& slide matches Some(None) ==> holds(
                page,
                "<aside id=\"slide\" sse-swap=\"slide\">"@ + Seq::<char>::empty() + "</aside>"@,
            )
        }),
{
    broadcast use parts_stand_in_the_whole;

    let page = spectate_page_html(view, answered, online, events_url, qr_url, join, slide);
    let game = spectate_game_html(view, answered, online);
    let beside = aside_html(slide);
    let how = "<aside class=\"join\"><img class=\"qr\" src=\""@ + escaped(qr_url)
        + "\" alt=\"QR code for "@ + escaped(join)
        + "\"><div class=\"how\"><p class=\"label\">join the quiz</p><p class=\"url\">"@ + escaped(
        address(join),
    ) + "</p><p class=\"hint\">scan the code or open the address on your phone</p>"@;
    holds_itself(game);
    holds_itself(beside);
    holds_itself(how);
    titles_are_shown(view.title);
    assert(holds(page, game));
    assert(holds(page, beside));
    assert(holds(join_html(qr_url, join), how));
    assert(holds(page, how));
    assert(holds(page, escaped(view.title) + "</title>"@));
}

/// A slide is shown as an image by its name, with its description; without one
/// there is nothing to show.
pub proof fn a_slide_is_an_image(s: &Slide)
    ensures
        slide_shown_html(Some(s)) == "<img src=\"/slides/"@ + escaped(s.name@) + "\" alt=\""@
            + escaped(s.alt@) + "\">"@,
        slide_shown_html(None).len() == 0,
{
}

// Addresses

/// So many times the same text.
pub open spec fn repeated(text: Seq<char>, times: nat) -> Seq<char>
    decreases times,
{
    if times == 0 {
        Seq::empty()
    } else {
        text + repeated(text, (times - 1) as nat)
    }
}

proof fn prefixes_are_dropped(s: Seq<char>, prefix: Seq<char>) -> (times: nat)
    requires
        prefix.len() > 0,
    ensures
        s == repeated(prefix, times) + without_prefix(s, prefix),
        ({
            let rest = without_prefix(s, prefix);
            !(rest.len() >= prefix.len() && rest.take(prefix.len() as int) == prefix)
        }),
    decreases s.len(),
{
    let n = prefix.len() as int;
    if n <= s.len() && s.take(n) == prefix {
        let times = prefixes_are_dropped(s.skip(n), prefix);
        let rest = without_prefix(s, prefix);
        assert(s =~= prefix + s.skip(n));
        regroup(prefix, repeated(prefix, times), rest);
        times + 1
    } else {
        assert(s =~= Seq::<char>::empty() + s);
        0
    }
}

/// Slashes at the end are left away, all of them and nothing else.
pub proof fn final_slashes_are_dropped(s: Seq<char>)
    ensures
        ({
            let rest = without_slashes(s);
            &&& rest.len() <= s.len()
            &&& rest == s.take(rest.len() as int)
            &&& forall|i: int| rest.len() <= i < s.len() ==> #[trigger] s[i] == '/'
            &&& rest.len() > 0 ==> rest.last() != '/'
        }),
    decreases s.len(),
{
    if s.len() > 0 && s.last() == '/' {
        let less = s.drop_last();
        final_slashes_are_dropped(less);
        let rest = without_slashes(s);
        assert(less.take(rest.len() as int) =~= s.take(rest.len() as int));
        assert forall|i: int| rest.len() <= i < s.len() implies #[trigger] s[i] == '/' by {
            if i < less.len() {
                assert(less[i] == '/');
            }
        }
    } else {
        assert(s.take(s.len() as int) =~= s);
    }
}

/// The address to type is what follows the scheme, without slashes at its end:
/// every `https://` that it begins with is left away, then every `http://`,
/// and nothing else.
pub proof fn the_address_to_type(url: Seq<char>)
    ensures
        exists|secure: nat, plain: nat, slashes: nat|
            {
                &&& url == #[trigger] repeated("https://"@, secure) + (#[trigger] repeated(
                    "http://"@,
                    plain,
                ) + (address(url) + #[trigger] repeated("/"@, slashes)))
                &&& plain == 0 ==> !(address(url).len() >= 8 && address(url).take(8)
                    == "https://"@)
            },
        address(url).len() > 0 ==> address(url).last() != '/',
        !(address(url).len() >= 7 && address(url).take(7) == "http://"@),
{
    reveal_strlit("https://");
    reveal_strlit("http://");
    reveal_strlit("/");
    let a = prefixes_are_dropped(url, "https://"@);
    let one = without_prefix(url, "https://"@);
    let b = prefixes_are_dropped(one, "http://"@);
    let two = without_prefix(one, "http://"@);
    final_slashes_are_dropped(two);
    let rest = address(url);
    let tail = two.skip(rest.len() as int);
    let c = tail.len();
    assert(two =~= rest + tail);
    assert forall|i: int| 0 <= i < tail.len() implies #[trigger] tail[i] == '/' by {
        assert(two[rest.len() + i] == '/');
    }
    only_slashes(tail);
    if b == 0 && rest.len() >= 8 && rest.take(8) == "https://"@ {
        assert(one =~= two);
        assert(one.take(8) =~= rest.take(8));
    }
    assert(url == repeated("https://"@, a) + (repeated("http://"@, b) + (rest + repeated(
        "/"@,
        c,
    ))));
    if rest.len() >= 7 && rest.take(7) == "http://"@ {
        assert(two.take(7) =~= rest.take(7));
    }
}

proof fn only_slashes(s: Seq<char>)
    requires
        forall|i: int| 0 <= i < s.len() ==> #[trigger] s[i] == '/',
    ensures
        s == repeated("/"@, s.len()),
    decreases s.len(),
{
    reveal_strlit("/");
    if s.len() > 0 {
        let rest = s.drop_first();
        assert forall|i: int| 0 <= i < rest.len() implies #[trigger] rest[i] == '/' by {
            assert(s[i + 1] == '/');
        }
        only_slashes(rest);
        assert(s =~= "/"@ + rest);
    }
}

// Text

/// Texts are escaped character by character.
pub proof fn escaping_goes_character_by_character(a: Seq<char>, b: Seq<char>)
    ensures
        escaped(a + b) == escaped(a) + escaped(b),
    decreases b.len(),
{
    if b.len() > 0 {
        let less = b.drop_last();
        escaping_goes_character_by_character(a, less);
        assert((a + b).drop_last() =~= a + less);
        regroup(escaped(a), escaped(less), escaped_char(b.last()));
    } else {
        assert(a + b =~= a);
        assert(escaped(a) + escaped(b) =~= escaped(a));
    }
}

/// What does not mean anything in HTML stands for itself.
pub proof fn plain_text_stands_for_itself(text: Seq<char>)
    requires
        forall|i: int|
            0 <= i < text.len() ==> (#[trigger] text[i]) != '&' && text[i] != '<' && text[i] != '>'
                && text[i] != '"',
    ensures
        escaped(text) == text,
    decreases text.len(),
{
    if text.len() > 0 {
        let less = text.drop_last();
        assert forall|i: int| 0 <= i < less.len() implies (#[trigger] less[i]) != '&' && less[i]
            != '<' && less[i] != '>' && less[i] != '"' by {
            assert(text[i] != '&');
        }
        plain_text_stands_for_itself(less);
        assert(text[text.len() - 1] == text.last());
        assert(less + seq![text.last()] =~= text);
    }
}

/// Different texts look different when they are escaped.
pub proof fn escaping_loses_nothing(a: Seq<char>, b: Seq<char>)
    requires
        escaped(a) == escaped(b),
    ensures
        a == b,
    decreases a.len() + b.len(),
{
    if a.len() == 0 || b.len() == 0 {
        escaped_is_no_shorter(a);
        escaped_is_no_shorter(b);
        assert(a =~= b);
    } else {
        let x = a.drop_first();
        let y = b.drop_first();
        assert(a =~= seq![a[0]] + x);
        assert(b =~= seq![b[0]] + y);
        escaping_goes_character_by_character(seq![a[0]], x);
        escaping_goes_character_by_character(seq![b[0]], y);
        escaped_single(a[0]);
        escaped_single(b[0]);
        reveal_strlit("&amp;");
        reveal_strlit("&lt;");
        reveal_strlit("&gt;");
        reveal_strlit("&quot;");
        let s = escaped(a);
        assert(s[0] == escaped_char(a[0])[0] && s[0] == escaped_char(b[0])[0]);
        if s[0] == '&' {
            assert(s[1] == escaped_char(a[0])[1] && s[1] == escaped_char(b[0])[1]);
        }
        assert(a[0] == b[0]);
        same_front(escaped_char(a[0]), escaped(x), escaped(y));
        escaping_loses_nothing(x, y);
    }
}

proof fn escaped_single(c: char)
    ensures
        escaped(seq![c]) == escaped_char(c),
{
    assert(seq![c].drop_last() =~= Seq::empty());
    assert(escaped(Seq::empty()) =~= Seq::empty());
    assert(escaped(seq![c]) =~= escaped_char(c));
}

proof fn escaped_is_no_shorter(a: Seq<char>)
    ensures
        escaped(a).len() >= a.len(),
    decreases a.len(),
{
    reveal_strlit("&amp;");
    reveal_strlit("&lt;");
    reveal_strlit("&gt;");
    reveal_strlit("&quot;");
    if a.len() > 0 {
        escaped_is_no_shorter(a.drop_last());
    }
}

// Decoration

/// So many times as large.
pub open spec fn times_32(k: nat) -> nat
    decreases k,
{
    if k == 0 {
        1
    } else {
        32 * times_32((k - 1) as nat)
    }
}

proof fn nix_digits(hash: u64, digits: nat, k: int)
    requires
        0 <= k < digits,
    ensures
        nix32(hash, digits).len() == digits,
        nix32(hash, digits)[k] == NIX32@[(hash as nat / times_32(k as nat)) as int % 32],
    decreases digits,
{
    if digits > 1 {
        let rest = (digits - 1) as nat;
        nix_digits(hash / 32, rest, if k > 0 {
            k - 1
        } else {
            0
        });
    }
    assert(nix32(hash / 32, 0).len() == 0);
    assert(times_32(0) == 1);
    assert(hash as nat / 1 == hash as nat);
    if k > 0 {
        let t = times_32((k - 1) as nat);
        times_32_is_positive((k - 1) as nat);
        vstd::arithmetic::div_mod::lemma_div_denominator(hash as int, 32, t as int);
        assert((hash / 32) as nat / t == hash as nat / times_32(k as nat));
    }
}

proof fn times_32_is_positive(k: nat)
    ensures
        times_32(k) > 0,
    decreases k,
{
    if k > 0 {
        times_32_is_positive((k - 1) as nat);
    }
}

/// A question is labelled with its number in the round and the hash of its
/// text: eight digits in base 32, the lowest first.
pub proof fn questions_are_labelled(text: Seq<char>, number: u32, of: u32, k: int)
    requires
        0 <= k < 8,
    ensures
        ({
            let digits = store_path_text(text, number, of).subrange(11, 19);
            &&& store_path_text(text, number, of) == "/nix/store/"@ + digits + "-question-"@
                + decimal(number as nat) + "-of-"@ + decimal(of as nat)
            &&& digits[k] == "0123456789abcdfghijklmnpqrsvwxyz"@[(fnv1a_of(encode_utf8(text)) as nat
                / times_32(k as nat)) as int % 32]
        }),
{
    reveal_strlit("/nix/store/");
    reveal_strlit("0123456789abcdfghijklmnpqrsvwxyz");
    let hash = fnv1a_of(encode_utf8(text));
    let digits = nix32(hash, 8);
    nix_digits(hash, 8, k);
    assert(store_path_text(text, number, of).subrange(11, 19) =~= digits);
    assert(NIX32@ =~= "0123456789abcdfghijklmnpqrsvwxyz"@);
}

// The QR code

proof fn dark_squares(width: usize, dark: Seq<bool>, pieces: Seq<Seq<char>>, n: nat)
    requires
        n <= dark.len(),
        pieces.len() == dark.len(),
        forall|i: int|
            0 <= i < pieces.len() ==> #[trigger] pieces[i] == if dark[i] {
                "M"@ + decimal((i % width as int + 2) as nat) + " "@ + decimal(
                    (i / width as int + 2) as nat,
                ) + "h1v1h-1z"@
            } else {
                Seq::empty()
            },
    ensures
        squares(width, dark, n) == pieces.take(n as int).flatten_alt(),
    decreases n,
{
    let some = pieces.take(n as int);
    if n > 0 {
        dark_squares(width, dark, pieces, (n - 1) as nat);
        assert(some.drop_last() =~= pieces.take(n - 1));
        assert(some.last() == pieces[n - 1]);
    }
}

/// The code is drawn as a square of one by one for every module that is dark
/// and for no other, row by row, on a white ground with two modules to spare
/// on every side.
pub proof fn dark_modules_are_drawn(width: usize, dark: Seq<bool>)
    ensures
        ({
            let size = decimal((width + 4) as nat);
            let pieces = Seq::new(
                dark.len(),
                |i: int|
                    if dark[i] {
                        "M"@ + decimal((i % width as int + 2) as nat) + " "@ + decimal(
                            (i / width as int + 2) as nat,
                        ) + "h1v1h-1z"@
                    } else {
                        Seq::empty()
                    },
            );
            &&& holds(svg_html(width, dark), "viewBox=\"0 0 "@ + size + " "@ + size)
            &&& holds(
                svg_html(width, dark),
                "\" fill=\"#fff\"></rect><path d=\""@ + escaped(pieces.flatten())
                    + "\" fill=\"#2f2f2f\"></path></svg>"@,
            )
        }),
{
    broadcast use parts_stand_in_the_whole;

    let size = decimal((width + 4) as nat);
    let pieces = Seq::new(
        dark.len(),
        |i: int|
            if dark[i] {
                "M"@ + decimal((i % width as int + 2) as nat) + " "@ + decimal(
                    (i / width as int + 2) as nat,
                ) + "h1v1h-1z"@
            } else {
                Seq::empty()
            },
    );
    dark_squares(width, dark, pieces, dark.len());
    assert(pieces.take(pieces.len() as int) =~= pieces);
    pieces.lemma_flatten_and_flatten_alt_are_equivalent();
    reveal_strlit("<svg xmlns=\"http://www.w3.org/2000/svg\" viewBox=\"0 0 ");
    reveal_strlit("viewBox=\"0 0 ");
    let begin = "<svg xmlns=\"http://www.w3.org/2000/svg\" viewBox=\"0 0 "@;
    let lead = begin.take(begin.len() - 13);
    assert("viewBox=\"0 0 "@.len() == 13);
    assert(begin =~= lead + "viewBox=\"0 0 "@);
    let box_part = "viewBox=\"0 0 "@ + size + " "@ + size;
    regroup(lead, "viewBox=\"0 0 "@, size);
    regroup(lead, "viewBox=\"0 0 "@ + size, " "@);
    regroup(lead, "viewBox=\"0 0 "@ + size + " "@, size);
    holds_itself(box_part);
    assert(holds(lead + box_part, box_part));
    let front = begin + size + " "@ + size
        + "\" shape-rendering=\"crispEdges\"><rect width=\""@ + size + "\" height=\""@ + size;
    let p0 = "\" fill=\"#fff\"></rect><path d=\""@;
    let d = escaped(pieces.flatten());
    let p1 = "\" fill=\"#2f2f2f\"></path></svg>"@;
    regroup(front, p0, d);
    regroup(front, p0 + d, p1);
    let path = p0 + d + p1;
    holds_itself(path);
    assert(holds(front + path, path));
    assert(svg_html(width, dark) == front + p0 + d + p1);
    assert(holds(front, box_part));
    assert(holds(svg_html(width, dark), box_part));
}

proof fn heads_load_scripts(title: Seq<char>)
    ensures
        holds(
            head_html(title),
            "</title><link rel=\"stylesheet\" href=\"/style.css\"><script src=\""@
                + "/vendor/htmx-2.0.11.min.js"@ + "\" defer></script><script src=\""@
                + "/vendor/htmx-ext-sse-2.2.4.min.js"@
                + "\" defer></script><script src=\"/clock.js\" defer></script></head>"@,
        ),
{
    let front =
        "<head><meta charset=\"utf-8\"><meta name=\"viewport\" content=\"width=device-width, initial-scale=1\"><meta name=\"color-scheme\" content=\"light\"><meta name=\"htmx-config\" content=\"{&quot;includeIndicatorStyles&quot;:false,&quot;allowEval&quot;:false,&quot;attributesToSettle&quot;:[&quot;class&quot;]}\"><title>"@
        + escaped(title);
    let p0 = "</title><link rel=\"stylesheet\" href=\"/style.css\"><script src=\""@;
    let p1 = p0 + "/vendor/htmx-2.0.11.min.js"@;
    let p2 = p1 + "\" defer></script><script src=\""@;
    let p3 = p2 + "/vendor/htmx-ext-sse-2.2.4.min.js"@;
    let last = "\" defer></script><script src=\"/clock.js\" defer></script></head>"@;
    let piece = p3 + last;
    regroup(front, p0, "/vendor/htmx-2.0.11.min.js"@);
    regroup(front, p1, "\" defer></script><script src=\""@);
    regroup(front, p2, "/vendor/htmx-ext-sse-2.2.4.min.js"@);
    regroup(front, p3, last);
    holds_itself(piece);
    parts_stand_in_the_whole(front, piece, piece);
}

/// Every page loads the stylesheet, the scripts that swap in what the stream
/// sends, and the one that keeps the clock; the livestream's is connected to
/// its own stream.
pub proof fn every_page_loads_what_it_needs(
    view: ViewModel,
    events_url: Seq<char>,
    answer_url: Seq<char>,
    seen: Seq<char>,
    answered: nat,
    online: nat,
    qr_url: Seq<char>,
    join: Seq<char>,
    slide: Option<Option<&Slide>>,
)
    ensures
        ({
            let page = page_html(view, events_url, answer_url, seen);
            let screen = spectate_page_html(
                view,
                answered,
                online,
                events_url,
                qr_url,
                join,
                slide,
            );
            let piece = "</title><link rel=\"stylesheet\" href=\"/style.css\"><script src=\""@
                + "/vendor/htmx-2.0.11.min.js"@ + "\" defer></script><script src=\""@
                + "/vendor/htmx-ext-sse-2.2.4.min.js"@
                + "\" defer></script><script src=\"/clock.js\" defer></script></head>"@;
            &&& holds(page, piece)
            &&& holds(screen, piece)
            &&& holds(
                screen,
                "<body class=\"spectate\"><div class=\"stage\" hx-ext=\"sse\" sse-connect=\""@
                    + escaped(events_url) + "\"><div id=\"game\" sse-swap=\"message\">"@,
            )
        }),
{
    broadcast use parts_stand_in_the_whole;

    let page = page_html(view, events_url, answer_url, seen);
    let screen = spectate_page_html(view, answered, online, events_url, qr_url, join, slide);
    let piece = "</title><link rel=\"stylesheet\" href=\"/style.css\"><script src=\""@
        + "/vendor/htmx-2.0.11.min.js"@ + "\" defer></script><script src=\""@
        + "/vendor/htmx-ext-sse-2.2.4.min.js"@
        + "\" defer></script><script src=\"/clock.js\" defer></script></head>"@;
    heads_load_scripts(view.title);
    assert(holds(page, piece));
    assert(holds(screen, piece));
    let v = "<!DOCTYPE html><html lang=\"en\">"@ + head_html(view.title);
    let p0 = "<body class=\"spectate\"><div class=\"stage\" hx-ext=\"sse\" sse-connect=\""@;
    let p1 = p0 + escaped(events_url);
    let stage = p1 + "\"><div id=\"game\" sse-swap=\"message\">"@;
    regroup(v, p0, escaped(events_url));
    regroup(v, p1, "\"><div id=\"game\" sse-swap=\"message\">"@);
    holds_itself(stage);
    assert(holds(v + stage, stage));
    assert(holds(screen, stage));
}

// One by one

proof fn rows_stand_in_a_row(rows: Seq<Seq<char>>, i: int)
    requires
        0 <= i < rows.len(),
    ensures
        holds(rows.flatten(), rows[i]),
    decreases rows.len(),
{
    broadcast use parts_stand_in_the_whole;

    let first = rows.first();
    let rest = rows.drop_first();
    if i == 0 {
        holds_itself(first);
        assert(holds(first + rest.flatten(), first));
    } else {
        rows_stand_in_a_row(rest, i - 1);
        assert(rest[i - 1] == rows[i]);
        assert(holds(first + rest.flatten(), rows[i]));
    }
}

proof fn holds_through(page: Seq<char>, part: Seq<char>, piece: Seq<char>)
    requires
        holds(page, part),
        holds(part, piece),
    ensures
        holds(page, piece),
{
    let a = choose|at: int| #[trigger] stands_at(page, part, at);
    let b = choose|at: int| #[trigger] stands_at(part, piece, at);
    assert(page.subrange(a + b, a + b + piece.len()) =~= part.subrange(b, b + piece.len()));
    assert(stands_at(page, piece, a + b));
}

/// On every screen the text of the right choice stands in a row that is marked
/// as correct, with its letter and its votes; on the livestream that of every
/// other choice stands in a row that is not marked.
pub proof fn the_right_text_is_marked(
    view: ViewModel,
    answered: nat,
    online: nat,
    url: Seq<char>,
    i: int,
)
    requires
        view.phase is Reveal,
        view.phase->Reveal_choices.len() <= 6,
        0 <= i < view.phase->Reveal_choices.len(),
    ensures
        ({
            let screen = spectate_game_html(view, answered, online);
            let page = game_html(view, url);
            let votes = decimal(view.phase->counts[i] as nat);
            let all = total(view.phase->counts);
            let max = decimal(
                if all > 1 {
                    all
                } else {
                    1
                },
            );
            let label = "<span class=\"letter\">"@ + seq![('A' as int + i) as char]
                + "</span><span class=\"text\">"@ + escaped(view.phase->Reveal_choices[i])
                + "</span>"@;
            let marked = "<div class=\"choice revealed"@ + " correct"@
                + "\"><progress class=\"share\" value=\""@ + votes + "\" max=\""@ + max
                + "\"></progress>"@ + label + "<span class=\"count\">"@ + votes
                + "</span></div>"@;
            let wrong = "<div class=\"choice revealed"@ + " wrong"@
                + "\"><progress class=\"share\" value=\""@ + votes + "\" max=\""@ + max
                + "\"></progress>"@ + label + "<span class=\"count\">"@ + votes
                + "</span></div>"@;
            let plain = "<div class=\"choice revealed"@ + Seq::<char>::empty()
                + "\"><progress class=\"share\" value=\""@ + votes + "\" max=\""@ + max
                + "\"></progress>"@ + label + "<span class=\"count\">"@ + votes
                + "</span></div>"@;
            let pick = view.phase->Reveal_answered;
            &&& i == view.phase->correct ==> holds(screen, marked) && holds(page, marked)
            &&& i != view.phase->correct ==> holds(screen, plain)
            &&& i != view.phase->correct && pick == Some(i as usize) ==> holds(page, wrong)
            &&& i != view.phase->correct && pick != Some(i as usize) ==> holds(page, plain)
        }),
{
    let choices = view.phase->Reveal_choices;
    let pick = view.phase->Reveal_answered;
    let seen = Seq::new(
        choices.len(),
        |i: int|
            revealed_row(
                i,
                choices[i],
                i == view.phase->correct,
                false,
                view.phase->counts[i],
                total(view.phase->counts),
            ),
    );
    let mine = Seq::new(
        choices.len(),
        |i: int|
            revealed_row(
                i,
                choices[i],
                i == view.phase->correct,
                pick == Some(i as usize),
                view.phase->counts[i],
                total(view.phase->counts),
            ),
    );
    the_livestream_marks_the_right_choice(view, answered, online);
    a_players_reveal_marks_the_right_choice(view, url);
    row_in_a_list(spectate_game_html(view, answered, online), seen, view.phase->explanation, i);
    row_in_a_list(game_html(view, url), mine, view.phase->explanation, i);
}

proof fn row_in_a_list(page: Seq<char>, rows: Seq<Seq<char>>, why: Seq<char>, i: int)
    requires
        0 <= i < rows.len(),
        holds(
            page,
            "<div class=\"choices\">"@ + rows.flatten() + "</div>"@ + "<p class=\"explanation\">"@
                + escaped(why) + "</p>"@,
        ),
    ensures
        holds(page, rows[i]),
{
    broadcast use parts_stand_in_the_whole;

    let list = "<div class=\"choices\">"@ + rows.flatten() + "</div>"@
        + "<p class=\"explanation\">"@ + escaped(why) + "</p>"@;
    rows_stand_in_a_row(rows, i);
    assert(holds(list, rows[i]));
    holds_through(page, list, rows[i]);
}

/// On every screen each choice of an open question is there with its letter; a
/// player can pick it by its number, and it is checked exactly if it is their
/// pick.
pub proof fn each_choice_is_there(
    view: ViewModel,
    answered: nat,
    online: nat,
    url: Seq<char>,
    i: int,
)
    requires
        view.phase is Question,
        view.phase->Question_choices.len() <= 6,
        0 <= i < view.phase->Question_choices.len(),
    ensures
        ({
            let label = "<span class=\"letter\">"@ + seq![('A' as int + i) as char]
                + "</span><span class=\"text\">"@ + escaped(view.phase->Question_choices[i])
                + "</span>"@;
            let is_picked = view.phase->Question_answered == Some(i as usize);
            &&& holds(
                spectate_game_html(view, answered, online),
                "<div class=\"choice\">"@ + label + "</div>"@,
            )
            &&& is_picked ==> holds(
                game_html(view, url),
                "<label class=\"choice\"><input type=\"radio\" name=\"choice\" value=\""@ + decimal(
                    i as nat,
                ) + "\""@ + " checked"@ + ">"@ + label + "</label>"@,
            )
            &&& !is_picked ==> holds(
                game_html(view, url),
                "<label class=\"choice\"><input type=\"radio\" name=\"choice\" value=\""@ + decimal(
                    i as nat,
                ) + "\""@ + Seq::<char>::empty() + ">"@ + label + "</label>"@,
            )
        }),
{
    broadcast use parts_stand_in_the_whole;

    let choices = view.phase->Question_choices;
    let pick = view.phase->Question_answered;
    let seen = Seq::new(
        choices.len(),
        |i: int| "<div class=\"choice\">"@ + lettered(i, choices[i]) + "</div>"@,
    );
    let mine = Seq::new(
        choices.len(),
        |i: int| choice_to_pick(i, choices[i], pick == Some(i as usize)),
    );
    the_livestream_lists_every_choice(view, answered, online);
    every_choice_can_be_picked(view, url);
    rows_stand_in_a_row(seen, i);
    rows_stand_in_a_row(mine, i);
    let list = "<div class=\"choices\">"@ + seen.flatten() + "</div>"@;
    assert(holds(list, seen[i]));
    holds_through(spectate_game_html(view, answered, online), list, seen[i]);
    let form = "<form id=\"answer\" hx-post=\""@ + escaped(url)
        + "\" hx-trigger=\"change\" hx-swap=\"none\" hx-sync=\"this:queue last\""@ + (match pick {
        Some(i) => " data-saved=\""@ + decimal(i as nat) + "\""@,
        None => Seq::empty(),
    }) + "><input type=\"hidden\" name=\"seq\" value=\""@ + decimal(view.phase->seq as nat)
        + "\"><fieldset class=\"choices\" data-closes=\""@ + decimal(
        view.phase->Question_ends as nat,
    ) + "\""@ + (if view.now >= view.phase->Question_ends {
        " disabled"@
    } else {
        Seq::empty()
    }) + ">"@ + mine.flatten() + "</fieldset>"@;
    assert(holds(form, mine[i]));
    holds_through(game_html(view, url), form, mine[i]);
}

/// On every screen each place of the leaderboard is there with rank, name and
/// points; on a player's page it is marked exactly if it is their own.
pub proof fn each_place_is_there(
    view: ViewModel,
    answered: nat,
    online: nat,
    url: Seq<char>,
    i: int,
)
    requires
        view.phase is Leaderboard,
        0 <= i < view.phase->top.len(),
    ensures
        ({
            let entry = view.phase->top[i];
            let is_me = entry.id == view.me->0.id;
            &&& holds(
                spectate_game_html(view, answered, online),
                "<li class=\""@ + Seq::<char>::empty() + "\"><span class=\"rank\">#"@ + decimal(
                    entry.rank,
                ) + "</span><span class=\"who\">"@ + escaped(entry.name)
                    + "</span><span class=\"points\">"@ + decimal(entry.score as nat)
                    + "</span></li>"@,
            )
            &&& is_me ==> holds(
                game_html(view, url),
                "<li class=\""@ + "me"@ + "\"><span class=\"rank\">#"@ + decimal(entry.rank)
                    + "</span><span class=\"who\">"@ + escaped(entry.name)
                    + "</span><span class=\"points\">"@ + decimal(entry.score as nat)
                    + "</span></li>"@,
            )
            &&& !is_me ==> holds(
                game_html(view, url),
                "<li class=\""@ + Seq::<char>::empty() + "\"><span class=\"rank\">#"@ + decimal(
                    entry.rank,
                ) + "</span><span class=\"who\">"@ + escaped(entry.name)
                    + "</span><span class=\"points\">"@ + decimal(entry.score as nat)
                    + "</span></li>"@,
            )
        }),
{
    broadcast use parts_stand_in_the_whole;

    let top = view.phase->top;
    let me = view.me->0;
    let mine = Seq::new(top.len(), |i: int| place_row(top[i], top[i].id == me.id));
    let seen = Seq::new(top.len(), |i: int| place_row(top[i], false));
    the_leaderboard_is_shown(view, url, answered, online);
    rows_stand_in_a_row(seen, i);
    rows_stand_in_a_row(mine, i);
    let a = "<ol class=\"leaderboard\">"@ + seen.flatten() + "</ol>"@;
    let b = "<ol class=\"leaderboard\">"@ + mine.flatten() + "</ol>"@;
    assert(holds(a, seen[i]));
    assert(holds(b, mine[i]));
    holds_through(spectate_game_html(view, answered, online), a, seen[i]);
    holds_through(game_html(view, url), b, mine[i]);
}

} // verus!
