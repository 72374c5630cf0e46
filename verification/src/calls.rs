//! What callers can rely on: whatever a function returns, given the arguments
//! it was called with.

use crate::cli::{check_line, read_args, serving_line, what_holds_without_arguments, Request};
use crate::game::{points, Game, PhaseView, PlayerId, Tally, View};
use crate::html::{
    address, escaped, game, page, spectate_game, spectate_page, tally_text, Markup, Urls,
};
use crate::pages::{
    a_page_shows_the_game, a_players_reveal_marks_the_right_choice, choice_to_pick,
    every_choice_can_be_picked, holds, lettered, place_row, revealed_row, the_leaderboard_is_shown,
    the_livestream_lists_every_choice, the_livestream_marks_the_right_choice,
    the_livestream_says_how_to_join,
};
use crate::promises::{
    a_leaderboard_counts_who_scored, a_reveal_counts_every_vote, an_open_question_is_shown_whole,
    the_bonus_is_the_share_of_the_time_left, who_is_counted,
};
use crate::quiz::{
    a_question_says_what_its_file_says, a_text_is_read_by_its_entries, are_question_places, check,
    every_question_file_gives_its_question, found_models, is_question_file, keys_differ, load_dir,
    parse, parsed, question_models, question_names_end_in_toml, texts, toml_entries, toml_place,
    what_a_question_needs, Error, Found, Question, QuestionModel,
};
use crate::slides::{
    is_sorted, kind, kinds_go_by_the_extension, load, next, pages_in, render_args, spells,
    the_pages_line_says_how_many, the_rotation_goes_by_file_and_page, the_rotation_goes_on,
    what_follows_is_a_slide, Kind, Slide,
};
use crate::sort::key_lt;
use crate::state::{phase_shown, total, Phase, PlayerModel};
use crate::text::{decimal, is_blank, lex_le};
use crate::web::{sends_first, version_text, versions_differ, wait, Room, Step, Wake};
use std::sync::Arc;
use vstd::prelude::*;
use vstd::view::View as _;

verus! {

// Points

/// What a right answer is worth: 500 points and the share of another 500 that
/// is left of the time, rounded down.
pub proof fn points_go_by_the_time_left(started: u64, ends: u64, at: u64, r: u64)
    requires
        started < ends,
        started <= at <= ends,
        call_ensures(points, (started, ends, at), r),
    ensures
        500 <= r <= 1000,
        (r - 500) * (ends - started) <= 500 * (ends - at),
        500 * (ends - at) < (r - 499) * (ends - started),
{
    the_bonus_is_the_share_of_the_time_left(started, ends, at);
}

// Questions

/// The texts that make up a question are what it says, and the answer is the
/// choice that counts as correct. They make up one exactly if none is blank,
/// there are two to six different choices, and the answer is one of them.
pub proof fn checked_questions_say_what_was_given(
    question: String,
    choices: Vec<String>,
    answer: String,
    explanation: String,
    r: Result<Question, Error>,
)
    requires
        call_ensures(check, (question, choices, answer, explanation), r),
    ensures
        r is Ok <==> {
            &&& !is_blank(question@) && !is_blank(explanation@)
            &&& 2 <= choices@.len() <= 6
            &&& forall|j: int| 0 <= j < choices@.len() ==> !is_blank((#[trigger] choices@[j])@)
            &&& forall|i: int, j: int|
                0 <= i < j < choices@.len() ==> (#[trigger] choices@[i])@ != (
                #[trigger] choices@[j])@
            &&& exists|j: int| 0 <= j < choices@.len() && (#[trigger] choices@[j])@ == answer@
        },
        r matches Ok(q) ==> {
            &&& q.text@ == question@ && q.explanation@ == explanation@
            &&& q.choices@.len() == choices@.len()
            &&& forall|j: int|
                0 <= j < choices@.len() ==> (#[trigger] q.choices@[j])@ == choices@[j]@
            &&& q.correct < q.choices@.len() && q.choices@[q.correct as int]@ == answer@
        },
{
    let list = texts(choices@);
    what_a_question_needs(question@, list, answer@, explanation@);
    assert(forall|j: int| 0 <= j < list.len() ==> #[trigger] list[j] == choices@[j]@);
    if exists|j: int| 0 <= j < choices@.len() && (#[trigger] choices@[j])@ == answer@ {
        let j = choose|j: int| 0 <= j < choices@.len() && (#[trigger] choices@[j])@ == answer@;
        assert(list[j] == answer@);
    }
    if list.contains(answer@) {
        let j = choose|j: int| 0 <= j < list.len() && list[j] == answer@;
        assert(choices@[j]@ == answer@);
    }
    if forall|i: int, j: int|
        0 <= i < j < choices@.len() ==> (#[trigger] choices@[i])@ != (#[trigger] choices@[j])@ {
        assert forall|i: int, j: int| 0 <= i < list.len() && 0 <= j < list.len() && i
            != j implies list[i] != list[j] by {
            if i < j {
                assert(choices@[i]@ != choices@[j]@);
            } else {
                assert(choices@[j]@ != choices@[i]@);
            }
        }
    }
    if list.no_duplicates() {
        assert forall|i: int, j: int| 0 <= i < j < choices@.len() implies (
        #[trigger] choices@[i])@ != (#[trigger] choices@[j])@ by {
            assert(list[i] != list[j]);
        }
    }
    if r is Ok {
        assert forall|j: int| 0 <= j < choices@.len() implies !is_blank(
            (#[trigger] choices@[j])@,
        ) by {
            assert(!is_blank(list[j]));
        }
    }
    if forall|j: int| 0 <= j < choices@.len() ==> !is_blank((#[trigger] choices@[j])@) {
        assert forall|j: int| 0 <= j < list.len() implies !is_blank(#[trigger] list[j]) by {
            assert(!is_blank(choices@[j]@));
        }
    }
    if let Ok(q) = r {
        let have = texts(q.choices@);
        assert(have == list);
        assert forall|j: int| 0 <= j < choices@.len() implies (#[trigger] q.choices@[j])@
            == choices@[j]@ by {
            assert(have[j] == list[j]);
        }
        assert(have[q.correct as int] == answer@);
    }
}

/// A text that is read as a question says what its entries say: each of the
/// four keys is there, and the answer is the choice that counts as correct.
pub proof fn questions_say_what_their_text_says(text: &str, r: Result<Question, Error>)
    requires
        call_ensures(parse, (text,), r),
    ensures
        r is Ok ==> toml_entries(text@) is Ok,
        r matches Ok(q) ==> keys_differ(toml_entries(text@)->Ok_0) ==> {
            let entries = toml_entries(text@)->Ok_0;
            &&& entries.len() == 4
            &&& forall|i: int|
                0 <= i < entries.len() ==> {
                    let entry = #[trigger] entries[i];
                    ||| entry.key == "question"@ && entry.text == Ok::<Seq<char>, Seq<char>>(
                        q.text@,
                    )
                    ||| entry.key == "choices"@ && entry.texts == Ok::<Seq<Seq<char>>, Seq<char>>(
                        texts(q.choices@),
                    )
                    ||| entry.key == "answer"@ && q.correct < q.choices@.len() && entry.text == Ok::<
                        Seq<char>,
                        Seq<char>,
                    >(q.choices@[q.correct as int]@)
                    ||| entry.key == "explanation"@ && entry.text == Ok::<Seq<char>, Seq<char>>(
                        q.explanation@,
                    )
                }
        },
{
    a_text_is_read_by_its_entries(text@);
    if r is Ok && keys_differ(toml_entries(text@)->Ok_0) {
        a_question_says_what_its_file_says(toml_place(text@), toml_entries(text@)->Ok_0);
    }
}

/// A directory that loads gives as many questions as it has question files,
/// each read from its file, in the order of the names.
pub proof fn loaded_questions_are_those_of_the_files(
    dir: &str,
    files: Vec<Found>,
    r: Result<Vec<Question>, Error>,
)
    requires
        call_ensures(load_dir, (dir, Ok(files)), r),
        r is Ok,
    ensures
        exists|places: Seq<int>|
            {
                &&& #[trigger] are_question_places(found_models(files@), places)
                &&& r->Ok_0@.len() == places.len()
                &&& forall|i: int|
                    0 <= i < places.len() ==> files@[#[trigger] places[i]].text is Ok && parsed(
                        files@[places[i]].text->Ok_0@,
                    ) == Ok::<QuestionModel, Seq<char>>(r->Ok_0@[i].model())
            },
{
    let found = found_models(files@);
    every_question_file_gives_its_question(dir@, found);
    let questions = question_models(r->Ok_0@);
    let places = choose|places: Seq<int>|
        {
            &&& #[trigger] are_question_places(found, places)
            &&& places.len() > 0
            &&& questions.len() == places.len()
            &&& forall|i: int|
                0 <= i < places.len() ==> {
                    let file = found[#[trigger] places[i]];
                    file.text is Ok && parsed(file.text->Ok_0) == Ok::<QuestionModel, Seq<char>>(
                        questions[i],
                    )
                }
        };
    assert forall|i: int| 0 <= i < places.len() implies files@[#[trigger] places[i]].text is Ok
        && parsed(files@[places[i]].text->Ok_0@) == Ok::<QuestionModel, Seq<char>>(
        r->Ok_0@[i].model(),
    ) by {
        assert(places.contains(places[i]));
        assert(found[places[i]] == files@[places[i]].model());
        assert(questions[i] == r->Ok_0@[i].model());
    }
}

/// A question file is one whose name is something followed by `.toml`.
pub proof fn question_files_are_named_toml(name: &Vec<u8>, r: bool)
    requires
        call_ensures(is_question_file, (name,), r),
    ensures
        r <==> {
            let n = name@.len() as int;
            &&& n > 5
            &&& name@[n - 5] == '.' as u8 && name@[n - 4] == 't' as u8 && name@[n - 3]
                == 'o' as u8 && name@[n - 2] == 'm' as u8 && name@[n - 1] == 'l' as u8
        },
{
    question_names_end_in_toml(name@, Seq::empty());
}

// Screens

/// The livestream marks the right choice of a reveal and no other, and lists
/// all choices of an open question.
pub proof fn what_the_livestream_shows_of_choices(view: &View, tally: Tally, r: Markup)
    requires
        call_ensures(spectate_game, (view, tally), r),
    ensures
        match view.phase {
            PhaseView::Reveal { choices, correct, counts, explanation, .. } => {
                let rows = Seq::new(
                    choices@.len(),
                    |i: int|
                        revealed_row(
                            i,
                            choices@[i]@,
                            i == correct,
                            false,
                            counts@[i],
                            total(counts@),
                        ),
                );
                choices@.len() <= 6 ==> holds(
                    r@,
                    "<div class=\"choices\">"@ + rows.flatten() + "</div>"@
                        + "<p class=\"explanation\">"@ + escaped(explanation@)
                        + "</p>"@,
                )
            },
            PhaseView::Question { choices, .. } => {
                let rows = Seq::new(
                    choices@.len(),
                    |i: int| "<div class=\"choice\">"@ + lettered(i, choices@[i]@) + "</div>"@,
                );
                choices@.len() <= 6 ==> holds(
                    r@,
                    "<div class=\"choices\">"@ + rows.flatten() + "</div>"@,
                )
            },
            _ => true,
        },
{
    let v = view.content();
    match view.phase {
        PhaseView::Reveal { choices, correct, counts, .. } => {
            if choices@.len() <= 6 {
                the_livestream_marks_the_right_choice(v, tally.answered as nat, tally.online as nat);
                let rows = Seq::new(
                    choices@.len(),
                    |i: int|
                        revealed_row(
                            i,
                            choices@[i]@,
                            i == correct,
                            false,
                            counts@[i],
                            total(counts@),
                        ),
                );
                let same = Seq::new(
                    v.phase->Reveal_choices.len(),
                    |i: int|
                        revealed_row(
                            i,
                            v.phase->Reveal_choices[i],
                            i == v.phase->correct,
                            false,
                            v.phase->counts[i],
                            total(v.phase->counts),
                        ),
                );
                assert(rows =~= same);
            }
        },
        PhaseView::Question { choices, .. } => {
            if choices@.len() <= 6 {
                the_livestream_lists_every_choice(v, tally.answered as nat, tally.online as nat);
                let rows = Seq::new(
                    choices@.len(),
                    |i: int| "<div class=\"choice\">"@ + lettered(i, choices@[i]@) + "</div>"@,
                );
                let same = Seq::new(
                    v.phase->Question_choices.len(),
                    |i: int|
                        "<div class=\"choice\">"@ + lettered(i, v.phase->Question_choices[i])
                            + "</div>"@,
                );
                assert(rows =~= same);
            }
        },
        _ => {},
    }
}

/// A player's page marks the right choice of a reveal, and as wrong the pick
/// that is another; of an open question every choice can be picked, and the
/// one that was is checked.
pub proof fn what_a_page_shows_of_choices(view: &View, urls: &Urls, r: Markup)
    requires
        call_ensures(game, (view, urls), r),
    ensures
        match view.phase {
            PhaseView::Reveal { choices, correct, counts, explanation, answered, .. } => {
                let rows = Seq::new(
                    choices@.len(),
                    |i: int|
                        revealed_row(
                            i,
                            choices@[i]@,
                            i == correct,
                            answered == Some(i as usize),
                            counts@[i],
                            total(counts@),
                        ),
                );
                choices@.len() <= 6 ==> holds(
                    r@,
                    "<div class=\"choices\">"@ + rows.flatten() + "</div>"@
                        + "<p class=\"explanation\">"@ + escaped(explanation@)
                        + "</p>"@,
                )
            },
            PhaseView::Question { seq, choices, ends, answered, .. } => {
                let rows = Seq::new(
                    choices@.len(),
                    |i: int| choice_to_pick(i, choices@[i]@, answered == Some(i as usize)),
                );
                choices@.len() <= 6 ==> holds(
                    r@,
                    "<form id=\"answer\" hx-post=\""@ + escaped(urls.answer@)
                        + "\" hx-trigger=\"change\" hx-swap=\"none\" hx-sync=\"this:queue last\""@
                        + (match answered {
                        Some(i) => " data-saved=\""@ + decimal(i as nat) + "\""@,
                        None => Seq::empty(),
                    }) + "><input type=\"hidden\" name=\"seq\" value=\""@ + decimal(seq as nat)
                        + "\"><fieldset class=\"choices\" data-closes=\""@ + decimal(ends as nat)
                        + "\""@ + (if view.now >= ends {
                        " disabled"@
                    } else {
                        Seq::empty()
                    }) + ">"@ + rows.flatten() + "</fieldset>"@,
                )
            },
            _ => true,
        },
{
    let v = view.content();
    match view.phase {
        PhaseView::Reveal { choices, correct, counts, answered, .. } => {
            if choices@.len() <= 6 {
                a_players_reveal_marks_the_right_choice(v, urls.answer@);
                let rows = Seq::new(
                    choices@.len(),
                    |i: int|
                        revealed_row(
                            i,
                            choices@[i]@,
                            i == correct,
                            answered == Some(i as usize),
                            counts@[i],
                            total(counts@),
                        ),
                );
                let same = Seq::new(
                    v.phase->Reveal_choices.len(),
                    |i: int|
                        revealed_row(
                            i,
                            v.phase->Reveal_choices[i],
                            i == v.phase->correct,
                            v.phase->Reveal_answered == Some(i as usize),
                            v.phase->counts[i],
                            total(v.phase->counts),
                        ),
                );
                assert(rows =~= same);
            }
        },
        PhaseView::Question { choices, answered, .. } => {
            if choices@.len() <= 6 {
                every_choice_can_be_picked(v, urls.answer@);
                let rows = Seq::new(
                    choices@.len(),
                    |i: int| choice_to_pick(i, choices@[i]@, answered == Some(i as usize)),
                );
                let same = Seq::new(
                    v.phase->Question_choices.len(),
                    |i: int|
                        choice_to_pick(
                            i,
                            v.phase->Question_choices[i],
                            v.phase->Question_answered == Some(i as usize),
                        ),
                );
                assert(rows =~= same);
            }
        },
        _ => {},
    }
}

/// After a round the places are listed in order with rank, name and points: on
/// the livestream, and on a player's page with their own marked.
pub proof fn what_is_shown_of_the_leaderboard(
    view: &View,
    tally: Tally,
    urls: &Urls,
    screen: Markup,
    page: Markup,
)
    requires
        view.phase is Leaderboard,
        view.phase->top@.len() > 0,
        view.me is Some,
        call_ensures(spectate_game, (view, tally), screen),
        call_ensures(game, (view, urls), page),
    ensures
        ({
            let top = view.phase->top@;
            let rows = Seq::new(top.len(), |i: int| place_row(top[i].model(), false));
            let mine = Seq::new(
                top.len(),
                |i: int| place_row(top[i].model(), top[i].id == view.me->0.id),
            );
            &&& holds(screen@, "<ol class=\"leaderboard\">"@ + rows.flatten() + "</ol>"@)
            &&& holds(page@, "<ol class=\"leaderboard\">"@ + mine.flatten() + "</ol>"@)
        }),
{
    let v = view.content();
    the_leaderboard_is_shown(v, urls.answer@, tally.answered as nat, tally.online as nat);
    let top = view.phase->top@;
    let list = v.phase->top;
    let rows = Seq::new(top.len(), |i: int| place_row(top[i].model(), false));
    let mine = Seq::new(
        top.len(),
        |i: int| place_row(top[i].model(), top[i].id == view.me->0.id),
    );
    assert(rows =~= Seq::new(list.len(), |i: int| place_row(list[i], false)));
    assert(mine =~= Seq::new(
        list.len(),
        |i: int| place_row(list[i], list[i].id == v.me->0.id),
    ));
}

/// The page of a player holds what their stream sends, and the livestream's
/// page what its own stream does.
pub proof fn pages_begin_with_the_first_event(
    view: &View,
    urls: &Urls,
    seen: &str,
    whole: Markup,
    part: Markup,
)
    requires
        call_ensures(page, (view, urls, seen), whole),
        call_ensures(game, (view, urls), part),
    ensures
        holds(whole@, part@),
{
    a_page_shows_the_game(view.content(), urls.events@, urls.answer@, seen@);
}

/// The livestream's page holds what its stream sends, and the address to join.
pub proof fn the_livestream_begins_with_its_first_event(
    view: &View,
    tally: Tally,
    urls: &Urls,
    join: &str,
    shown: Option<Option<&Slide>>,
    whole: Markup,
    part: Markup,
)
    requires
        call_ensures(spectate_page, (view, tally, urls, join, shown), whole),
        call_ensures(spectate_game, (view, tally), part),
    ensures
        holds(whole@, part@),
        holds(
            whole@,
            "<aside class=\"join\"><img class=\"qr\" src=\""@ + escaped(urls.qr@)
                + "\" alt=\"QR code for "@ + escaped(join@)
                + "\"><div class=\"how\"><p class=\"label\">join the quiz</p><p class=\"url\">"@
                + escaped(address(join@))
                + "</p><p class=\"hint\">scan the code or open the address on your phone</p>"@,
        ),
{
    the_livestream_says_how_to_join(
        view.content(),
        tally.answered as nat,
        tally.online as nat,
        urls.spectate_events@,
        urls.qr@,
        join@,
        shown,
    );
}

/// The count on the livestream: answers and players, or between rounds players
/// alone.
pub proof fn the_count_in_words(tally: Tally, phase: &PhaseView, r: String)
    requires
        call_ensures(tally_text, (tally, phase), r),
    ensures
        r@ == match phase {
            PhaseView::Leaderboard { .. } => decimal(tally.online as nat) + " online"@,
            _ => decimal(tally.answered as nat) + " answered · "@ + decimal(tally.online as nat)
                + " online"@,
        },
{
}

// Games

/// What a player's screen needs is what the game is: an open question with all
/// its choices, or the reveal with the votes for each.
pub proof fn views_show_the_game(g: &Game, id: PlayerId, now: u64, r: View)
    requires
        g.wf(),
        call_ensures(Game::view, (g, id, now), r),
    ensures
        r.now == now,
        r.me is Some && r.me->0.id == id,
        ({
            let m = g.model();
            let question = m.questions[m.question as int];
            match r.phase {
                PhaseView::Question { text, choices, started, ends, .. } => {
                    &&& m.phase == Phase::Question { started, ends }
                    &&& text@ == question.text
                    &&& choices@.len() == question.choices.len()
                    &&& forall|c: int|
                        0 <= c < choices@.len() ==> (#[trigger] choices@[c])@
                            == question.choices[c]
                },
                PhaseView::Reveal { text, choices, correct, counts, ends, explanation, .. } => {
                    &&& m.phase == Phase::Reveal { ends }
                    &&& text@ == question.text && explanation@ == question.explanation
                    &&& correct == question.correct
                    &&& choices@.len() == question.choices.len()
                    &&& forall|c: int|
                        0 <= c < choices@.len() ==> (#[trigger] choices@[c])@
                            == question.choices[c]
                    &&& counts@.len() == choices@.len()
                    &&& forall|c: int|
                        0 <= c < counts@.len() ==> (#[trigger] counts@[c]) == m.players.filter(
                            |p: PlayerModel| p.answer is Some && p.answer->0.choice == c,
                        ).len()
                },
                PhaseView::Leaderboard { ends, players, .. } => {
                    &&& m.phase == Phase::Leaderboard { ends }
                    &&& players == m.players.filter(|p: PlayerModel| p.score > 0).len()
                },
            }
        }),
{
    let m = g.model();
    g.wf_is_valid();
    let shown = phase_shown(m, Some(id));
    assert(r.phase.content() == shown);
    match m.phase {
        Phase::Question { .. } => {
            an_open_question_is_shown_whole(m, Some(id));
        },
        Phase::Reveal { .. } => {
            a_reveal_counts_every_vote(m, Some(id));
        },
        Phase::Leaderboard { .. } => {
            a_leaderboard_counts_who_scored(m, Some(id));
        },
    }
    match r.phase {
        PhaseView::Question { choices, .. } => {
            assert forall|c: int| 0 <= c < choices@.len() implies (#[trigger] choices@[c])@
                == m.questions[m.question as int].choices[c] by {
                assert(texts(choices@)[c] == choices@[c]@);
            }
        },
        PhaseView::Reveal { choices, .. } => {
            assert forall|c: int| 0 <= c < choices@.len() implies (#[trigger] choices@[c])@
                == m.questions[m.question as int].choices[c] by {
                assert(texts(choices@)[c] == choices@[c]@);
            }
        },
        _ => {},
    }
}

/// The tally counts who has picked something, and who has a page open.
pub proof fn tallies_count_players(g: &Game, r: Tally)
    requires
        g.wf(),
        call_ensures(Game::tally, (g,), r),
    ensures
        r.answered == g.model().players.filter(|p: PlayerModel| p.answer is Some).len(),
        r.online == g.model().players.filter(|p: PlayerModel| p.connections > 0).len(),
{
    who_is_counted(g.model().players, 0, 0);
}

// Slides

/// The slides of a file are its parts in order, each a page of its own,
/// numbered from one; one part that could not be had is reported instead.
pub proof fn every_part_is_a_slide(
    name: &Vec<u8>,
    of: Kind,
    parts: Vec<Result<Vec<u8>, String>>,
    r: Result<Vec<Arc<Slide>>, String>,
)
    requires
        parts@.len() <= u32::MAX,
        call_ensures(load, (name, of, parts), r),
    ensures
        r is Ok <==> forall|i: int| 0 <= i < parts@.len() ==> (#[trigger] parts@[i]) is Ok,
        r matches Ok(slides) ==> {
            &&& slides@.len() == parts@.len()
            &&& forall|i: int|
                0 <= i < slides@.len() ==> (#[trigger] slides@[i]).body@ == parts@[i]->Ok_0@
                    && slides@[i].order.1 == i + 1
        },
{
    if r is Ok {
        assert forall|i: int| 0 <= i < parts@.len() implies (#[trigger] parts@[i]) is Ok by {
        }
    }
}

/// The slide that follows is one of the slides; in a list that is in order it
/// comes after the one shown, with none between, and where none comes after it
/// is the first.
pub proof fn the_next_slide_follows(
    slides: &[Arc<Slide>],
    current: &Slide,
    r: Option<Arc<Slide>>,
    first: Option<Arc<Slide>>,
)
    requires
        is_sorted(slides@),
        slides@.len() > 0,
        call_ensures(next, (slides, Some(current)), r),
        call_ensures(next, (slides, None), first),
    ensures
        first == Some(slides@[0]),
        r is Some && slides@.contains(r->0),
        if exists|i: int|
            0 <= i < slides@.len() && comes_later(*(#[trigger] slides@[i]), *current) {
            &&& comes_later(*r->0, *current)
            &&& forall|i: int|
                0 <= i < slides@.len() && comes_later(*(#[trigger] slides@[i]), *current)
                    ==> !comes_later(*r->0, *slides@[i])
        } else {
            r->0 == slides@[0]
        },
{
    the_rotation_goes_on(slides@, current.key());
    what_follows_is_a_slide(slides@, Some(current.key()));
    what_follows_is_a_slide(slides@, None);
    assert forall|a: Slide, b: Slide| #[trigger] comes_later(a, b) == key_lt(
        b.key(),
        a.key(),
    ) by {
        the_rotation_goes_by_file_and_page(b, a);
    }
    if exists|i: int| 0 <= i < slides@.len() && comes_later(*(#[trigger] slides@[i]), *current) {
        let i = choose|i: int|
            0 <= i < slides@.len() && comes_later(*(#[trigger] slides@[i]), *current);
        assert(key_lt(current.key(), slides@[i].key()));
    } else {
        assert forall|i: int| 0 <= i < slides@.len() implies !key_lt(
            current.key(),
            (#[trigger] slides@[i]).key(),
        ) by {
            assert(!comes_later(*slides@[i], *current));
        }
    }
}

/// Whether a slide comes later than another: by the name of its file, or of
/// one file by its page.
pub open spec fn comes_later(a: Slide, b: Slide) -> bool {
    if a.order.0@ == b.order.0@ {
        a.order.1 > b.order.1
    } else {
        lex_le(b.order.0@, a.order.0@)
    }
}

/// The extension says what kind of slide a file is, in whichever case.
pub proof fn kinds_are_told_by_the_extension(
    name: &Vec<u8>,
    stem: Seq<u8>,
    ext: Seq<u8>,
    r: Option<Kind>,
)
    requires
        name@ == stem + seq!['.' as u8] + ext,
        stem.len() > 0,
        forall|i: int| 0 <= i < ext.len() ==> (#[trigger] ext[i]) != '.' as u8,
        call_ensures(kind, (name,), r),
    ensures
        r is Some <==> spells(ext, "pdf"@) || spells(ext, "png"@) || spells(ext, "jpg"@) || spells(
            ext,
            "jpeg"@,
        ) || spells(ext, "webp"@),
        r == Some(Kind::Pdf) <==> spells(ext, "pdf"@),
{
    kinds_go_by_the_extension(stem, ext);
}

/// The number of pages is the one on the line that begins with `Pages:`.
pub proof fn pages_are_counted(text: &str, n: u32, tail: Seq<char>, r: Result<u32, String>)
    requires
        text@ == "Pages:"@ + seq![' '] + decimal(n as nat) + Seq::<char>::empty() + tail,
        tail.len() == 0 || tail[0] == '\n',
        call_ensures(pages_in, (text,), r),
    ensures
        r is Ok && r->Ok_0 == n,
{
    the_pages_line_says_how_many(seq![' '], n as nat, Seq::empty(), tail);
}

/// What `pdftoppm` is asked for is the page alone.
pub proof fn one_page_is_rendered(page: u32, r: Vec<String>)
    requires
        call_ensures(render_args, (page,), r),
    ensures
        r@.len() == 8,
        r@[0]@ == "-png"@,
        r@[4]@ == "-f"@ && r@[5]@ == decimal(page as nat),
        r@[6]@ == "-l"@ && r@[7]@ == decimal(page as nat),
{
    let list = r@.map_values(|s: String| s@);
    assert(list.len() == r@.len());
    assert(list[0] == r@[0]@ && list[4] == r@[4]@ && list[5] == r@[5]@ && list[6] == r@[6]@
        && list[7] == r@[7]@);
}

// Rooms

/// The clock sleeps until the deadline, and never not at all.
pub proof fn the_clock_sleeps_until_the_deadline(deadline: u64, now: u64, r: u64)
    requires
        call_ensures(wait, (deadline, now), r),
    ensures
        r >= 1,
        now < deadline ==> now + r == deadline,
        now >= deadline ==> r == 1,
{
}

/// A stream begins with the view exactly if the page shows another state.
pub proof fn streams_begin_with_what_is_new(
    boot: u64,
    changes: u64,
    seen: &str,
    seen_boot: u64,
    seen_changes: u64,
    r: bool,
    first: bool,
)
    requires
        seen@ == version_text(seen_boot, seen_changes),
        call_ensures(sends_first, (Some(seen), boot, changes), r),
        call_ensures(sends_first, (None, boot, changes), first),
    ensures
        r <==> boot != seen_boot || changes != seen_changes,
        first,
{
    if seen@ == version_text(boot, changes) {
        versions_differ(boot, changes, seen_boot, seen_changes);
    }
}

/// The livestream is sent the whole view when the phase changes, a slide when
/// there is a new one, and the count when it has changed.
pub proof fn what_the_livestream_is_sent(
    room: &Room,
    last: Tally,
    wake: Wake,
    current: Option<&Slide>,
    r: Step,
)
    requires
        room.wf(),
        call_ensures(Room::woken, (room, last, wake, current), r),
    ensures
        ({
            let players = room.game.model().players;
            let answered = players.filter(|p: PlayerModel| p.answer is Some).len();
            let online = players.filter(|p: PlayerModel| p.connections > 0).len();
            match wake {
                Wake::Changed => r is Refresh,
                Wake::Closed => r is End,
                Wake::Slide => match r {
                    Step::Send(message, tally) => tally == last && match current {
                        Some(s) => message.data@ == "<img src=\"/slides/"@ + escaped(
                            s.name@,
                        ) + "\" alt=\""@ + escaped(s.alt@) + "\">"@,
                        None => message.data@.len() == 0,
                    },
                    _ => false,
                },
                Wake::Time => if last.answered == answered && last.online == online {
                    r is Wait
                } else {
                    match r {
                        Step::Send(message, tally) => tally.answered == answered && tally.online
                            == online,
                        _ => false,
                    }
                },
            }
        }),
{
    who_is_counted(room.game.model().players, 0, 0);
}

// The command line

/// Given only a directory of questions, they are served as it is by default.
pub proof fn questions_are_served_by_default(args: &Vec<String>, r: Request)
    requires
        args@.len() == 2,
        args@[0]@ == "--questions"@,
        call_ensures(read_args, (args,), r),
    ensures
        match r {
            Request::Serve { dir, listen, public_url, settings } => {
                &&& dir@ == args@[1]@ && listen@ == "127.0.0.1:8080"@ && public_url is None
                &&& settings.title@ == "NixCon Quiz"@ && settings.question_seconds == 20
                    && settings.reveal_seconds == 8 && settings.round_questions == 10
                    && settings.leaderboard_seconds == 30
            },
            _ => false,
        },
{
    what_holds_without_arguments(args@[1]@);
    assert(texts(args@) =~= seq!["--questions"@, args@[1]@]);
}

/// What is printed of the question files and the server.
pub proof fn what_is_printed(
    dir: &str,
    questions: usize,
    address: &str,
    checked: String,
    serving: String,
)
    requires
        call_ensures(check_line, (dir, questions), checked),
        call_ensures(serving_line, (questions, dir, address), serving),
    ensures
        checked@ == dir@ + ": "@ + decimal(questions as nat) + " questions, ok"@,
        serving@ == "serving "@ + decimal(questions as nat) + " questions from "@ + dir@
            + " on http://"@ + address@,
{
}

} // verus!
