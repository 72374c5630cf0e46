//! What the game promises those who play it, said of what goes in and what
//! comes out: who is paid what, what is shown to whom, who is counted, who is
//! remembered, and what an event leaves alone.

use crate::count::{count, count_bound, count_none, count_some};
use crate::game::{opened, scored_come_first};
use crate::laws::{reveal_pays_right_answers, the_clock_keeps_games_valid};
use crate::sort::order_is_sorted;
use crate::state::{
    advance_fits, advanced, after_answer, ahead, answer_result, answered, can_deal, connected,
    deadline, dealt, disconnected, forgotten_tokens, has_answered, has_scored, ids_increase, is_due,
    is_free_name, is_kept, is_new, is_online, is_shuffle, is_sound, is_valid, joined, knows, online,
    phase_shown, picked, player, rank, revealed, scored, shown, standing_key, standing_order,
    started, swept, tally_of, ticked, token_of, top, total, unanswered, votes, welcome, welcomed,
    with_pick, worth, AnswerError, GameModel, Phase, PhaseViewModel, PlayerId, PlayerModel,
    SettingsModel,
};
use crate::quiz::QuestionModel;
use crate::text::{hex_number, padded_hex_stands_for_its_number, sixteens};
use crate::upkeep::{
    filtered_people, joined_is_valid, player_at, player_place, tally_adds_up,
    with_player_changes_one, worth_bounds,
};
use vstd::arithmetic::div_mod::lemma_fundamental_div_mod;
use vstd::prelude::*;

verus! {

// Points

/// A right answer earns 500 points, and of another 500 the share that is left
/// of the time, rounded down. Time before the question opened is not counted.
pub proof fn the_bonus_is_the_share_of_the_time_left(started: u64, ends: u64, at: u64)
    requires
        started < ends,
    ensures
        ({
            let left = if at <= started {
                ends - started
            } else if at >= ends {
                0
            } else {
                ends - at
            };
            let bonus = worth(started, ends, at) - 500;
            &&& 0 <= bonus <= 500
            &&& bonus * (ends - started) <= 500 * left
            &&& 500 * left < (bonus + 1) * (ends - started)
        }),
{
    let window = ends - started;
    let left = if at <= started {
        ends - started
    } else if at >= ends {
        0
    } else {
        ends - at
    };
    worth_bounds(started, ends, at);
    let q = 500 * left / window;
    lemma_fundamental_div_mod(500 * left, window);
    assert(0 <= q <= 500) by (nonlinear_arith)
        requires
            q == 500 * left / window,
            0 <= left <= window,
            window >= 1,
    ;
    assert(q * window <= 500 * left && 500 * left < (q + 1) * window) by (nonlinear_arith)
        requires
            500 * left == window * q + (500 * left) % window,
            0 <= (500 * left) % window < window,
    ;
}

/// A question that is open for no time at all pays everything before its end
/// and the 500 points from then on.
pub proof fn a_question_without_time_pays_all_or_the_base(ends: u64, at: u64)
    ensures
        worth(ends, ends, at) == if at < ends {
            1000int
        } else {
            500
        },
{
}

/// The reveal pays whoever picked the correct choice: 500 points and the share
/// of another 500 that was left of the time when they picked it. Nobody else
/// is paid, and nothing else about anyone changes.
pub proof fn the_reveal_pays_by_speed(m: GameModel, id: PlayerId, now: u64)
    requires
        is_valid(m),
        m.phase is Question,
        m.phase->started < m.phase->Question_ends,
        knows(m.players, id),
    ensures
        knows(revealed(m, now).players, id),
        ({
            let before = player(m.players, id);
            let after = player(revealed(m, now).players, id);
            let correct = m.questions[m.question as int].correct;
            let time = m.phase->Question_ends - m.phase->started;
            &&& after.name == before.name && after.token == before.token && after.answer
                == before.answer && after.connections == before.connections && after.last_seen
                == before.last_seen
            &&& if before.answer is Some && before.answer->0.choice == correct {
                let at = before.answer->0.at;
                let left = if at <= m.phase->started {
                    time
                } else if at >= m.phase->Question_ends {
                    0
                } else {
                    m.phase->Question_ends - at
                };
                let bonus = after.score - before.score - 500;
                &&& after.gained is Some && after.gained->0 == after.score - before.score
                &&& 0 <= bonus <= 500
                &&& bonus * time <= 500 * left
                &&& 500 * left < (bonus + 1) * time
            } else {
                after.score == before.score && after.gained is None
            }
        }),
{
    reveal_pays_right_answers(m, id, now);
    let before = player(m.players, id);
    let i = player_place(m.players, id);
    let r = revealed(m, now);
    assert forall|a: int, b: int| 0 <= a < b < r.players.len() implies (#[trigger] r.players[a]).id
        < (#[trigger] r.players[b]).id by {
        assert(m.players[a].id < m.players[b].id);
    }
    assert(r.players[i].id == id);
    player_at(r.players, i);
    if before.answer is Some {
        the_bonus_is_the_share_of_the_time_left(
            m.phase->started,
            m.phase->Question_ends,
            before.answer->0.at,
        );
    }
}

// Counting

/// What is counted is how many players there are of a kind.
pub proof fn counting_is_picking_out<A>(s: Seq<A>, p: spec_fn(A) -> bool)
    ensures
        count(s, p) == s.filter(p).len(),
    decreases s.len(),
{
    reveal(Seq::filter);
    if s.len() > 0 {
        counting_is_picking_out(s.drop_last(), p);
    }
}

/// Online is who has a page open; answered has who picked something; scored
/// has who has points; a vote is a pick of the choice; ahead is who has more
/// points.
pub proof fn who_is_counted(players: Seq<PlayerModel>, choice: int, score: u64)
    ensures
        online(players) == players.filter(|p: PlayerModel| p.connections > 0).len(),
        answered(players) == players.filter(|p: PlayerModel| p.answer is Some).len(),
        scored(players) == players.filter(|p: PlayerModel| p.score > 0).len(),
        votes(players, choice) == players.filter(
            |p: PlayerModel| p.answer is Some && p.answer->0.choice == choice,
        ).len(),
        ahead(players, score) == players.filter(|p: PlayerModel| p.score > score).len(),
{
    let is_on = |p: PlayerModel| p.connections > 0;
    let has_picked = |p: PlayerModel| p.answer is Some;
    let has_points = |p: PlayerModel| p.score > 0;
    let has_voted = |p: PlayerModel| p.answer is Some && p.answer->0.choice == choice;
    let has_more = |p: PlayerModel| p.score > score;
    assert((|p: PlayerModel| is_online(p)) =~= is_on);
    assert((|p: PlayerModel| has_answered(p)) =~= has_picked);
    assert((|p: PlayerModel| has_scored(p)) =~= has_points);
    assert((|p: PlayerModel| picked(p, choice)) =~= has_voted);
    counting_is_picking_out(players, is_on);
    counting_is_picking_out(players, has_picked);
    counting_is_picking_out(players, has_points);
    counting_is_picking_out(players, has_voted);
    counting_is_picking_out(players, has_more);
}

// What is shown

/// While a question is open, everyone is shown its text and all its choices in
/// their order, the clock, and of all picks only their own. So whoever plays
/// can pick any choice that they are shown, and no other.
pub proof fn an_open_question_is_shown_whole(m: GameModel, id: Option<PlayerId>)
    requires
        m.phase is Question,
    ensures
        match phase_shown(m, id) {
            PhaseViewModel::Question {
                seq,
                number,
                of,
                text,
                choices,
                started,
                ends,
                answered,
                pick_points,
            } => {
                &&& text == m.questions[m.question as int].text
                &&& choices.len() == m.questions[m.question as int].choices.len()
                &&& forall|c: int|
                    0 <= c < choices.len() ==> #[trigger] choices[c]
                        == m.questions[m.question as int].choices[c]
                &&& m.phase == Phase::Question { started, ends }
                &&& number == m.number && of == m.settings.round_questions
                &&& if id is Some && knows(m.players, id->0) && player(
                    m.players,
                    id->0,
                ).answer is Some {
                    let pick = player(m.players, id->0).answer->0;
                    answered == Some(pick.choice) && pick_points == Some(
                        worth(started, ends, pick.at),
                    )
                } else {
                    answered is None && pick_points is None
                }
                &&& forall|choice: usize, now: u64|
                    id is Some && knows(m.players, id->0) && now < ends ==> (choice
                        < choices.len() <==> (#[trigger] answer_result(
                        m,
                        id->0,
                        seq,
                        choice,
                        now,
                    )) is Ok)
            },
            _ => false,
        },
{
}

/// A reveal shows the question just asked with its answer, and for every
/// choice how many players picked it; to a player also their own pick and what
/// it gained.
pub proof fn a_reveal_counts_every_vote(m: GameModel, id: Option<PlayerId>)
    requires
        is_valid(m),
        m.phase is Reveal,
    ensures
        match phase_shown(m, id) {
            PhaseViewModel::Reveal {
                number,
                of,
                text,
                choices,
                ends,
                correct,
                counts,
                explanation,
                answered,
                gained,
            } => {
                let question = m.questions[m.question as int];
                &&& m.phase == Phase::Reveal { ends }
                &&& number == m.number && of == m.settings.round_questions
                &&& text == question.text && choices == question.choices && correct
                    == question.correct && explanation == question.explanation
                &&& counts.len() == choices.len()
                &&& forall|c: int|
                    0 <= c < counts.len() ==> (#[trigger] counts[c]) == m.players.filter(
                        |p: PlayerModel| p.answer is Some && p.answer->0.choice == c,
                    ).len()
                &&& total(counts) == m.players.filter(|p: PlayerModel| p.answer is Some).len()
                &&& if id is Some && knows(m.players, id->0) {
                    let p = player(m.players, id->0);
                    &&& gained == p.gained
                    &&& answered is Some <==> p.answer is Some
                    &&& answered is Some ==> answered->0 == p.answer->0.choice
                } else {
                    gained is None && answered is None
                }
            },
            _ => false,
        },
{
    tally_adds_up(m);
    who_is_counted(m.players, 0, 0);
    assert forall|c: int| 0 <= c < tally_of(m).len() implies (#[trigger] tally_of(m)[c])
        == m.players.filter(
        |p: PlayerModel| p.answer is Some && p.answer->0.choice == c,
    ).len() by {
        who_is_counted(m.players, c, 0);
        count_bound(m.players, |p: PlayerModel| picked(p, c));
    }
}

/// The leaderboard is shown with the number of players who have points.
pub proof fn a_leaderboard_counts_who_scored(m: GameModel, id: Option<PlayerId>)
    requires
        m.phase is Leaderboard,
    ensures
        match phase_shown(m, id) {
            PhaseViewModel::Leaderboard { ends, top: list, players } => {
                &&& m.phase == Phase::Leaderboard { ends }
                &&& list == top(m.players)
                &&& players == m.players.filter(|p: PlayerModel| p.score > 0).len()
            },
            _ => false,
        },
{
    who_is_counted(m.players, 0, 0);
}

/// Players are told their own name, points and place, and everyone how many
/// are online. The livestream is nobody's.
pub proof fn everyone_is_told_their_own(m: GameModel, id: PlayerId, now: u64)
    requires
        is_valid(m),
    ensures
        shown(m, None, now).me is None,
        shown(m, Some(id), now).me is Some,
        ({
            let me = shown(m, Some(id), now).me->0;
            &&& me.id == id
            &&& if knows(m.players, id) {
                let p = player(m.players, id);
                &&& me.name == p.name && me.score == p.score
                &&& me.rank is Some <==> p.score > 0
                &&& p.score > 0 ==> me.rank->0 == 1 + m.players.filter(
                    |q: PlayerModel| q.score > p.score,
                ).len()
            } else {
                me.name.len() == 0 && me.score == 0 && me.rank is None
            }
        }),
        forall|who: Option<PlayerId>| #[trigger]
            shown(m, who, now).now == now && shown(m, who, now).title == m.settings.title && shown(
                m,
                who,
                now,
            ).online == m.players.filter(|p: PlayerModel| p.connections > 0).len(),
{
    who_is_counted(m.players, 0, 0);
    if knows(m.players, id) {
        who_is_counted(m.players, 0, player(m.players, id).score);
    }
}

// The leaderboard

/// Every entry of the leaderboard is a player with points, with their name,
/// points and place: one more than there are players with more points. No
/// player is listed twice, and the list is as long as it can be.
pub proof fn the_leaderboard_lists_players(players: Seq<PlayerModel>, i: int)
    requires
        ids_increase(players),
        0 <= i < top(players).len(),
    ensures
        top(players).len() == if players.filter(|p: PlayerModel| p.score > 0).len() < 10 {
            players.filter(|p: PlayerModel| p.score > 0).len()
        } else {
            10
        },
        ({
            let entry = top(players)[i];
            &&& entry.score > 0
            &&& knows(players, entry.id)
            &&& player(players, entry.id).name == entry.name
            &&& player(players, entry.id).score == entry.score
            &&& entry.rank == 1 + players.filter(
                |p: PlayerModel| p.score > entry.score,
            ).len()
        }),
        forall|j: int|
            0 <= j < top(players).len() && j != i ==> (#[trigger] top(players)[j]).id != top(
                players,
            )[i].id,
{
    let keys = players.map_values(|p: PlayerModel| standing_key(p));
    order_is_sorted(keys);
    count_bound(players, |p: PlayerModel| has_scored(p));
    scored_come_first(players);
    let a = standing_order(players)[i];
    who_is_counted(players, 0, players[a].score);
    player_at(players, a);
    assert(has_scored(players[a]));
    assert forall|j: int| 0 <= j < top(players).len() && j != i implies (#[trigger] top(
        players,
    )[j]).id != top(players)[i].id by {
        let b = standing_order(players)[j];
        assert(a != b);
        if a < b {
            assert(players[a].id < players[b].id);
        } else {
            assert(players[b].id < players[a].id);
        }
    }
}

// Answers

/// An answer to the open question that comes in time but picks a choice that
/// is not there is refused as such; any other that is refused came too late,
/// quotes another question or is nobody's.
pub proof fn why_an_answer_is_refused(
    m: GameModel,
    id: PlayerId,
    seq: u64,
    choice: usize,
    now: u64,
)
    ensures
        ({
            let r = answer_result(m, id, seq, choice, now);
            let in_time = m.phase is Question && seq == m.seq && now < m.phase->Question_ends;
            let is_there = choice < m.questions[m.question as int].choices.len();
            &&& r == Err::<(), AnswerError>(AnswerError::InvalidChoice) <==> in_time && !is_there
            &&& r == Err::<(), AnswerError>(AnswerError::Closed) <==> !in_time || (is_there
                && !knows(m.players, id))
            &&& r is Ok <==> in_time && is_there && knows(m.players, id)
        }),
{
}

/// An answer that is accepted is the player's pick from then on, with the time
/// at which that choice was made: a repeated one keeps its time, another one
/// has the new. Beyond that only when they were last seen changes, and nothing
/// else in the game.
pub proof fn what_an_answer_changes(m: GameModel, id: PlayerId, seq: u64, choice: usize, now: u64)
    requires
        is_valid(m),
        answer_result(m, id, seq, choice, now) is Ok,
    ensures
        ({
            let next = after_answer(m, id, seq, choice, now);
            let before = player(m.players, id);
            let after = player(next.players, id);
            &&& knows(next.players, id)
            &&& after.answer is Some && after.answer->0.choice == choice
            &&& after.answer->0.at == if before.answer is Some && before.answer->0.choice
                == choice {
                before.answer->0.at
            } else {
                now
            }
            &&& after == (PlayerModel { answer: after.answer, last_seen: now, ..before })
            &&& next == (GameModel { players: next.players, ..m })
            &&& forall|other: PlayerId|
                knows(next.players, other) == #[trigger] knows(m.players, other)
            &&& forall|other: PlayerId|
                other != id && #[trigger] knows(m.players, other) ==> player(next.players, other)
                    == player(m.players, other)
        }),
{
    with_player_changes_one(m.players, id, |p: PlayerModel| with_pick(p, choice, now));
}

// Coming and going

/// Someone new becomes one more player: with a number and a name that nobody
/// has, no points, no page open yet and nothing picked. The token leads to
/// them, every other token to whom it led, and nothing else changes.
pub proof fn what_a_newcomer_changes(
    m: GameModel,
    token: Option<Seq<char>>,
    fresh: Seq<char>,
    name: Seq<char>,
    now: u64,
)
    requires
        is_valid(m),
        m.players.len() < 20_000,
        token is Some ==> !m.tokens.contains_key(token->0),
        m.next_id < u64::MAX,
        is_free_name(m.players, name),
    ensures
        ({
            let next = welcomed(m, token, fresh, name, now);
            let id = m.next_id;
            &&& welcome(m, token, fresh) == Some((id, Some(fresh)))
            &&& !knows(m.players, id)
            &&& knows(next.players, id)
            &&& player(next.players, id) == (PlayerModel {
                id,
                token: fresh,
                name,
                score: 0,
                connections: 0,
                last_seen: now,
                answer: None,
                gained: None,
            })
            &&& next.players.len() == m.players.len() + 1
            &&& forall|other: PlayerId| #[trigger]
                knows(m.players, other) ==> knows(next.players, other) && player(
                    next.players,
                    other,
                ) == player(m.players, other)
            &&& next.tokens.contains_key(fresh) && next.tokens[fresh] == id
            &&& forall|t: Seq<char>|
                t != fresh ==> (#[trigger] next.tokens.contains_key(t) <==> m.tokens.contains_key(
                    t,
                )) && (m.tokens.contains_key(t) ==> next.tokens[t] == m.tokens[t])
            &&& next.next_id == id + 1
            &&& next == (GameModel {
                players: next.players,
                tokens: next.tokens,
                next_id: next.next_id,
                ..m
            })
        }),
{
    assert(is_new(m, token));
    joined_is_valid(m, fresh, name, now);
    let next = joined(m, fresh, name, now);
    if knows(m.players, m.next_id) {
        let i = player_place(m.players, m.next_id);
        assert(is_sound(m, m.players[i]));
    }
    let n = m.players.len() as int;
    assert(next.players[n].id == m.next_id);
    player_at(next.players, n);
    assert forall|other: PlayerId| #[trigger] knows(m.players, other) implies knows(
        next.players,
        other,
    ) && player(next.players, other) == player(m.players, other) by {
        let i = player_place(m.players, other);
        assert(next.players[i] == m.players[i]);
        player_at(next.players, i);
    }
}

/// Opening a page adds one to the pages of a player, closing one takes one
/// away; either way they were seen just now. Nothing else changes, and nothing
/// at all for someone who is no player.
pub proof fn what_a_page_changes(m: GameModel, id: PlayerId, now: u64)
    requires
        is_valid(m),
    ensures
        ({
            let opened = connected(m, id, now);
            let closed = disconnected(m, id, now);
            let before = player(m.players, id);
            &&& knows(m.players, id) && before.connections < u32::MAX ==> player(
                opened.players,
                id,
            ) == (PlayerModel {
                connections: (before.connections + 1) as u32,
                last_seen: now,
                ..before
            })
            &&& knows(m.players, id) && before.connections > 0 ==> player(closed.players, id) == (
            PlayerModel { connections: (before.connections - 1) as u32, last_seen: now, ..before })
            &&& opened == (GameModel { players: opened.players, ..m })
            &&& closed == (GameModel { players: closed.players, ..m })
            &&& forall|other: PlayerId| #[trigger]
                knows(m.players, other) <==> knows(opened.players, other)
            &&& forall|other: PlayerId| #[trigger]
                knows(m.players, other) <==> knows(closed.players, other)
            &&& forall|other: PlayerId|
                other != id && #[trigger] knows(m.players, other) ==> player(
                    opened.players,
                    other,
                ) == player(m.players, other) && player(closed.players, other) == player(
                    m.players,
                    other,
                )
        }),
{
    with_player_changes_one(
        m.players,
        id,
        |p: PlayerModel|
            PlayerModel { connections: (p.connections + 1) as u32, last_seen: now, ..p },
    );
    with_player_changes_one(
        m.players,
        id,
        |p: PlayerModel|
            PlayerModel { connections: (p.connections - 1) as u32, last_seen: now, ..p },
    );
}

// The clock

/// A game moves on at the deadline of its phase; a fast one also while a
/// question is open once someone is online and everyone who is has picked.
pub proof fn when_a_game_moves_on(m: GameModel, fast: bool, now: u64)
    ensures
        is_due(m, fast, now) <==> {
            ||| now >= match m.phase {
                Phase::Question { ends, .. } => ends,
                Phase::Reveal { ends } => ends,
                Phase::Leaderboard { ends } => ends,
            }
            ||| {
                &&& fast && m.phase is Question
                &&& exists|i: int|
                    0 <= i < m.players.len() && (#[trigger] m.players[i]).connections > 0
                &&& forall|i: int|
                    0 <= i < m.players.len() && (#[trigger] m.players[i]).connections > 0
                        ==> m.players[i].answer is Some
            }
        },
{
    if exists|i: int| 0 <= i < m.players.len() && (#[trigger] m.players[i]).connections > 0 {
        let i = choose|i: int|
            0 <= i < m.players.len() && (#[trigger] m.players[i]).connections > 0;
        count_some(m.players, i, |p: PlayerModel| is_online(p));
    } else {
        count_none(m.players, |p: PlayerModel| is_online(p));
    }
    assert forall|i: int| 0 <= i < m.players.len() implies is_online(#[trigger] m.players[i]) == (
    m.players[i].connections > 0) && has_answered(m.players[i]) == (m.players[i].answer
        is Some) by {
    }
}

/// A game begins with its first question open, the last of the shuffle; the
/// others are asked later. Nobody plays yet.
pub proof fn how_a_game_begins(
    settings: SettingsModel,
    questions: Seq<QuestionModel>,
    now: u64,
    order: Seq<usize>,
)
    requires
        questions.len() > 0,
        is_shuffle(order, questions.len()),
        now + settings.question_seconds * 1000 <= u64::MAX,
    ensures
        ({
            let m = started(opened(settings, questions, now), now, order);
            &&& m.settings == settings && m.questions == questions
            &&& m.phase is Question
            &&& m.phase->started == now
            &&& m.phase->Question_ends == now + settings.question_seconds * 1000
            &&& m.seq == 1 && m.number == 1
            &&& m.deck.push(m.question) == order
            &&& m.players.len() == 0
            &&& m.tokens == Map::<Seq<char>, PlayerId>::empty()
            &&& m.next_id == 1
        }),
{
    let m = started(opened(settings, questions, now), now, order);
    assert(m.deck.push(m.question) =~= order);
}

/// A deck that has run out is replaced by the shuffle as it is; only where
/// that would ask the same question again at once, its first and last question
/// change places.
pub proof fn decks_come_from_the_shuffle(m: GameModel, now: u64, order: Seq<usize>)
    requires
        is_valid(m),
        m.deck.len() == 0,
        is_shuffle(order, m.questions.len()),
    ensures
        ({
            let next = started(m, now, order);
            let deck = next.deck.push(next.question);
            let repeats = order.len() > 1 && order.last() == m.question;
            &&& deck.len() == order.len()
            &&& !repeats ==> deck == order
            &&& repeats ==> {
                &&& deck[0] == order.last() && deck.last() == order[0]
                &&& forall|i: int| 0 < i < order.len() - 1 ==> #[trigger] deck[i] == order[i]
            }
        }),
{
    let next = started(m, now, order);
    let deck = next.deck.push(next.question);
    assert(deck =~= dealt(m, order));
}

/// What the end of a phase leaves alone: settings, questions and who will be
/// next; and until the leaderboard is over also every player's number, name,
/// token, pages and when they were last seen.
pub proof fn what_the_clock_leaves_alone(m: GameModel, now: u64, order: Seq<usize>)
    requires
        is_valid(m),
        can_deal(m, order),
        advance_fits(m, now),
    ensures
        ({
            let next = advanced(m, now, order);
            &&& next.settings == m.settings && next.questions == m.questions && next.next_id
                == m.next_id
            &&& !(m.phase is Leaderboard) ==> {
                &&& next.tokens == m.tokens
                &&& next.players.len() == m.players.len()
                &&& forall|i: int|
                    0 <= i < m.players.len() ==> {
                        let before = m.players[i];
                        let after = #[trigger] next.players[i];
                        &&& after.id == before.id && after.token == before.token && after.name
                            == before.name && after.connections == before.connections
                            && after.last_seen == before.last_seen
                        &&& m.phase is Reveal ==> after.score == before.score
                        &&& next.phase is Question ==> after.answer is None && after.gained is None
                        &&& !(next.phase is Question) ==> after.answer == before.answer
                        &&& next.phase is Leaderboard ==> after == before
                    }
            }
            &&& !(next.phase is Question) ==> next.question == m.question && next.deck == m.deck
                && next.seq == m.seq
        }),
{
}

/// After the leaderboard exactly those are remembered who have a page open or
/// were seen within the last hour: with number, name, token, pages and when
/// they were last seen, and without points, pick or gain. The tokens of the
/// others are forgotten; one that only a remembered player has still leads to
/// that player.
pub proof fn who_is_remembered(m: GameModel, now: u64, order: Seq<usize>, id: PlayerId)
    requires
        is_valid(m),
        m.phase is Leaderboard,
        can_deal(m, order),
        advance_fits(m, now),
    ensures
        ({
            let next = advanced(m, now, order);
            let before = player(m.players, id);
            let after = player(next.players, id);
            &&& knows(next.players, id) <==> knows(m.players, id) && (before.connections > 0 || now
                < before.last_seen + 3_600_000)
            &&& knows(next.players, id) ==> after == (PlayerModel {
                score: 0,
                answer: None,
                gained: None,
                ..before
            })
            &&& forall|t: Seq<char>| #[trigger]
                next.tokens.contains_key(t) ==> m.tokens.contains_key(t) && knows(
                    next.players,
                    m.tokens[t],
                )
            &&& forall|t: Seq<char>|
                m.tokens.contains_key(t) && knows(next.players, m.tokens[t]) && (forall|i: int|
                    0 <= i < m.players.len() && (#[trigger] m.players[i]).token == t
                        ==> m.players[i].id == m.tokens[t]) ==> #[trigger] next.tokens.contains_key(
                    t,
                )
            &&& forall|t: Seq<char>| #[trigger]
                next.tokens.contains_key(t) ==> next.tokens[t] == m.tokens[t]
        }),
{
    the_clock_keeps_games_valid(m, now, order);
    remembered_players(m, now, order, id);
    let next = advanced(m, now, order);
    assert forall|t: Seq<char>| #[trigger] next.tokens.contains_key(t) implies m.tokens.contains_key(
        t,
    ) && knows(next.players, m.tokens[t]) by {
        let who = m.tokens[t];
        remembered_players(m, now, order, who);
        let k = player_place(m.players, who);
        assert(m.players[k].token == t);
        assert(!forgotten_tokens(m.players, now).contains(t));
        assert(is_kept(m.players[k], now));
    }
    assert forall|t: Seq<char>|
        m.tokens.contains_key(t) && knows(next.players, m.tokens[t]) && (forall|i: int|
            0 <= i < m.players.len() && (#[trigger] m.players[i]).token == t ==> m.players[i].id
                == m.tokens[t]) implies #[trigger] next.tokens.contains_key(t) by {
        remembered_players(m, now, order, m.tokens[t]);
        if forgotten_tokens(m.players, now).contains(t) {
            let i = choose|i: int|
                0 <= i < m.players.len() && !is_kept(m.players[i], now) && (
                #[trigger] m.players[i]).token == t;
            player_at(m.players, i);
        }
    }
}

proof fn remembered_players(m: GameModel, now: u64, order: Seq<usize>, id: PlayerId)
    requires
        is_valid(m),
        m.phase is Leaderboard,
        can_deal(m, order),
        advance_fits(m, now),
    ensures
        ({
            let next = advanced(m, now, order);
            &&& knows(next.players, id) <==> knows(m.players, id) && is_kept(
                player(m.players, id),
                now,
            )
            &&& knows(next.players, id) ==> player(next.players, id) == (PlayerModel {
                score: 0,
                answer: None,
                gained: None,
                ..player(m.players, id)
            })
        }),
{
    the_clock_keeps_games_valid(m, now, order);
    let keep = |p: PlayerModel| is_kept(p, now);
    let s = swept(m, now);
    let kept = m.players.filter(keep);
    let next = advanced(m, now, order);
    filtered_people(m.players, keep);
    assert forall|i: int| 0 <= i < kept.len() implies #[trigger] next.players[i] == (PlayerModel {
        score: 0,
        answer: None,
        gained: None,
        ..kept[i]
    }) by {
        assert(next.players[i] == unanswered(s.players[i]));
    }
    if knows(next.players, id) {
        let i = player_place(next.players, id);
        assert(kept[i].id == id);
        let k = choose|k: int| 0 <= k < m.players.len() && m.players[k] == kept[i];
        player_at(m.players, k);
    }
    if knows(m.players, id) && is_kept(player(m.players, id), now) {
        let k = player_place(m.players, id);
        assert(keep(m.players[k]));
        let i = choose|i: int| 0 <= i < kept.len() && kept[i] == m.players[k];
        assert(next.players[i].id == id);
        player_at(next.players, i);
    }
}

/// A tick before the end of a phase does nothing; one after it is the end of
/// the phase.
pub proof fn a_tick_ends_a_phase_that_is_over(m: GameModel, now: u64, order: Seq<usize>)
    ensures
        ({
            let ends = match m.phase {
                Phase::Question { ends, .. } => ends,
                Phase::Reveal { ends } => ends,
                Phase::Leaderboard { ends } => ends,
            };
            &&& deadline(m.phase) == ends
            &&& now < ends ==> ticked(m, now, order) == m
            &&& now >= ends ==> ticked(m, now, order) == advanced(m, now, order)
        }),
{
}

/// A game can move on unless the end of what comes next cannot be written
/// down, or there is no number left for the next question.
pub proof fn games_can_move_on(m: GameModel, now: u64)
    ensures
        advance_fits(m, now) <==> match m.phase {
            Phase::Question { .. } => now + m.settings.reveal_seconds * 1000 <= u64::MAX,
            Phase::Reveal { .. } => if m.number >= m.settings.round_questions {
                now + m.settings.leaderboard_seconds * 1000 <= u64::MAX
            } else {
                now + m.settings.question_seconds * 1000 <= u64::MAX && m.seq < u64::MAX
            },
            Phase::Leaderboard { .. } => now + m.settings.question_seconds * 1000 <= u64::MAX
                && m.seq < u64::MAX,
        },
{
}

/// With twenty thousand players a game is full: whoever has no token of a
/// player is turned away.
pub proof fn a_game_is_full_at_twenty_thousand(
    m: GameModel,
    token: Option<Seq<char>>,
    fresh: Seq<char>,
    name: Seq<char>,
    now: u64,
)
    requires
        m.players.len() >= 20_000,
        token is Some ==> !m.tokens.contains_key(token->0),
    ensures
        welcome(m, token, fresh) is None,
        welcomed(m, token, fresh, name, now) == m,
{
}

/// A token is the number behind it as 32 hexadecimal digits.
pub proof fn a_token_is_its_number(n: u128)
    ensures
        token_of(n).len() == 32,
        hex_number(token_of(n)) == n,
{
    assert(sixteens(32) == 0x1_0000_0000_0000_0000_0000_0000_0000_0000) by {
        reveal_with_fuel(sixteens, 33);
    }
    padded_hex_stands_for_its_number(n as nat, 32);
}

/// All votes together are those for each choice.
pub proof fn votes_add_up(counts: Seq<u32>, more: u32)
    ensures
        total(Seq::empty()) == 0,
        total(counts.push(more)) == total(counts) + more,
{
    assert(counts.push(more).drop_last() =~= counts);
}

} // verus!
