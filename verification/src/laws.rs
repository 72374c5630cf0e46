//! What holds of the game as a whole, whatever is played: laws that relate
//! several events, or what is shown to what happened.

use crate::count::{
    count, count_bound, count_filter, count_none, count_same, count_some, count_update,
};
use crate::game::scored_come_first;
use crate::html::game_html;
use crate::quiz::is_playable;
use crate::sort::{listed, order_is_sorted};
use crate::state::{
    advance_fits, advanced, after_answer, ahead, answer_result, answered, can_deal, choice_of,
    connected, deadline, dealt, disconnected, forgotten_tokens, has_answered, has_scored,
    ids_increase, is_due, is_free_name, is_kept, is_known, is_new, is_online, is_shuffle, is_sound,
    is_valid, joined, knows, me_shown, online, phase_shown, pick_of, picked, player, rank, revealed,
    scored, shown, standing_key, standing_order, started, swept, ticked, top, unanswered, welcome,
    welcomed, with_pick, with_player, worth, Answer, GameModel, Phase, PhaseViewModel, PlayerId,
    PlayerModel, BASE_POINTS, LEADERBOARD_SIZE, MAX_PLAYERS, SPEED_POINTS,
};
use crate::text::{lex_le, lex_total};
use crate::upkeep::{
    dealt_is_sound, filtered_people, joined_is_valid, player_at, player_place, ranked_is_valid,
    revealed_is_valid, started_is_valid, swept_can_start, with_player_changes_one, worth_bounds,
};
use vstd::prelude::*;
use vstd::set_lib::lemma_subset_equality;

verus! {

// What an open question gives away

/// Two games that differ at most in which choices are correct, how that is
/// explained, and what the players other than `id` picked.
pub open spec fn same_but_for_answers(a: GameModel, b: GameModel, id: Option<PlayerId>) -> bool {
    &&& a.settings == b.settings
    &&& a.questions.len() == b.questions.len()
    &&& forall|i: int|
        0 <= i < a.questions.len() ==> (#[trigger] a.questions[i]).text == b.questions[i].text
            && a.questions[i].choices == b.questions[i].choices
    &&& a.phase == b.phase
    &&& a.seq == b.seq
    &&& a.question == b.question
    &&& a.number == b.number
    &&& a.players.len() == b.players.len()
    &&& forall|i: int|
        0 <= i < a.players.len() ==> (#[trigger] a.players[i]) == (PlayerModel {
            answer: if Some(a.players[i].id) == id {
                b.players[i].answer
            } else {
                a.players[i].answer
            },
            ..b.players[i]
        })
}

/// While a question is open, what a player's screen or the livestream shows
/// depends neither on which choice is correct, nor on the explanation, nor on
/// what anyone else picked.
pub proof fn open_question_gives_nothing_away(
    a: GameModel,
    b: GameModel,
    id: Option<PlayerId>,
    now: u64,
    answer_url: Seq<char>,
)
    requires
        is_valid(a),
        is_valid(b),
        a.phase is Question,
        same_but_for_answers(a, b, id),
    ensures
        shown(a, id, now) == shown(b, id, now),
        game_html(shown(a, id, now), answer_url) == game_html(shown(b, id, now), answer_url),
{
    assert(a.questions[a.question as int].text == b.questions[b.question as int].text);
    count_same(
        a.players,
        b.players,
        |p: PlayerModel| is_online(p),
        |p: PlayerModel| is_online(p),
    );
    if let Some(me) = id {
        assert(knows(a.players, me) == knows(b.players, me)) by {
            if knows(a.players, me) {
                let i = player_place(a.players, me);
                assert(b.players[i].id == me);
            }
            if knows(b.players, me) {
                let i = player_place(b.players, me);
                assert(a.players[i].id == me);
            }
        }
        if knows(a.players, me) {
            let i = player_place(a.players, me);
            assert(a.players[i].id == me);
            player_at(b.players, i);
            let p = a.players[i];
            count_same(
                a.players,
                b.players,
                |q: PlayerModel| q.score > p.score,
                |q: PlayerModel| q.score > p.score,
            );
        }
    }
}

// Points

/// Nobody's points change while a question is open: not by an answer, by
/// someone joining, or by a page being opened or closed.
pub proof fn points_wait_for_the_reveal(m: GameModel, other: PlayerId, now: u64)
    requires
        is_valid(m),
        knows(m.players, other),
    ensures
        forall|id: PlayerId, seq: u64, choice: usize|
            player((#[trigger] after_answer(m, id, seq, choice, now)).players, other).score
                == player(m.players, other).score,
        forall|id: PlayerId|
            player((#[trigger] connected(m, id, now)).players, other).score == player(
                m.players,
                other,
            ).score,
        forall|id: PlayerId|
            player((#[trigger] disconnected(m, id, now)).players, other).score == player(
                m.players,
                other,
            ).score,
        forall|token: Seq<char>, name: Seq<char>|
            m.next_id < u64::MAX && m.players.len() < MAX_PLAYERS && is_free_name(m.players, name)
                ==> player((#[trigger] joined(m, token, name, now)).players, other) == player(
                m.players,
                other,
            ),
{
    assert forall|id: PlayerId, seq: u64, choice: usize|
        player((#[trigger] after_answer(m, id, seq, choice, now)).players, other).score == player(
            m.players,
            other,
        ).score by {
        with_player_changes_one(m.players, id, |p: PlayerModel| with_pick(p, choice, now));
    }
    assert forall|id: PlayerId|
        player((#[trigger] connected(m, id, now)).players, other).score == player(
            m.players,
            other,
        ).score by {
        with_player_changes_one(
            m.players,
            id,
            |p: PlayerModel|
                PlayerModel { connections: (p.connections + 1) as u32, last_seen: now, ..p },
        );
    }
    assert forall|id: PlayerId|
        player((#[trigger] disconnected(m, id, now)).players, other).score == player(
            m.players,
            other,
        ).score by {
        with_player_changes_one(
            m.players,
            id,
            |p: PlayerModel|
                PlayerModel { connections: (p.connections - 1) as u32, last_seen: now, ..p },
        );
    }
    assert forall|token: Seq<char>, name: Seq<char>|
        m.next_id < u64::MAX && m.players.len() < MAX_PLAYERS && is_free_name(
            m.players,
            name,
        ) implies player((#[trigger] joined(m, token, name, now)).players, other) == player(
        m.players,
        other,
    ) by {
        joining_disturbs_nobody(m, token, name, now, other);
    }
}

/// The reveal pays those who picked the correct choice what their pick was
/// worth when they made it, and nobody else anything.
pub proof fn reveal_pays_right_answers(m: GameModel, id: PlayerId, now: u64)
    requires
        is_valid(m),
        m.phase is Question,
        knows(m.players, id),
    ensures
        knows(revealed(m, now).players, id),
        ({
            let before = player(m.players, id);
            let after = player(revealed(m, now).players, id);
            let correct = m.questions[m.question as int].correct;
            if picked(before, correct as int) {
                let points = worth(
                    m.phase->started,
                    m.phase->Question_ends,
                    before.answer->0.at,
                );
                after.score == before.score + points && after.gained == Some(points)
                    && BASE_POINTS <= points <= BASE_POINTS + SPEED_POINTS
            } else {
                after.score == before.score && after.gained is None
            }
        }),
{
    let i = player_place(m.players, id);
    let r = revealed(m, now);
    let correct = m.questions[m.question as int].correct;
    assert forall|a: int, b: int| 0 <= a < b < r.players.len() implies (#[trigger] r.players[a]).id
        < (#[trigger] r.players[b]).id by {
        assert(m.players[a].id < m.players[b].id);
    }
    assert(r.players[i].id == id);
    player_at(r.players, i);
    assert(is_sound(m, m.players[i]));
    if picked(m.players[i], correct as int) {
        worth_bounds(m.phase->started, m.phase->Question_ends, m.players[i].answer->0.at);
        score_fits(m, i);
    }
}

proof fn score_fits(m: GameModel, i: int)
    requires
        is_valid(m),
        m.phase is Question,
        0 <= i < m.players.len(),
    ensures
        m.players[i].score + BASE_POINTS + SPEED_POINTS <= u64::MAX,
{
    assert(is_sound(m, m.players[i]));
    assert(1000 * (m.number - 1) <= 1000 * u32::MAX) by (nonlinear_arith)
        requires
            m.number <= u32::MAX,
    ;
}

/// A right answer given earlier is worth at least as much.
pub proof fn faster_is_never_worse(started: u64, ends: u64, early: u64, late: u64)
    requires
        started <= ends,
        early <= late,
    ensures
        worth(started, ends, early) >= worth(started, ends, late),
{
    let window = if ends - started > 1 {
        ends - started
    } else {
        1
    };
    let left = |at: u64|
        if at >= ends {
            0
        } else if ends - at > window {
            window
        } else {
            ends - at
        };
    worth_bounds(started, ends, early);
    worth_bounds(started, ends, late);
    let a = left(early);
    let b = left(late);
    assert(500 * b / window <= 500 * a / window) by (nonlinear_arith)
        requires
            0 <= b <= a,
            window >= 1,
    ;
    assert(0 <= 500 * a / window <= 500 && 0 <= 500 * b / window <= 500) by (nonlinear_arith)
        requires
            0 <= a <= window,
            0 <= b <= window,
            window >= 1,
    ;
}

/// A right answer given at once is worth all points; one at the last moment
/// the base alone.
pub proof fn worth_at_both_ends(started: u64, ends: u64, early: u64, late: u64)
    requires
        early <= started < ends <= late,
    ensures
        worth(started, ends, early) == BASE_POINTS + SPEED_POINTS,
        worth(started, ends, late) == BASE_POINTS,
{
    let window = if ends - started > 1 {
        ends - started
    } else {
        1
    };
    assert(500 * window / window == 500) by (nonlinear_arith)
        requires
            window >= 1,
    ;
    assert(0int / window == 0) by (nonlinear_arith)
        requires
            window >= 1,
    ;
}

/// Of two right answers to a question the earlier one gains at least as much,
/// and one given no later than the question started all points.
pub proof fn earlier_answers_gain_more(m: GameModel, first: PlayerId, second: PlayerId, now: u64)
    requires
        is_valid(m),
        m.phase is Question,
        knows(m.players, first),
        knows(m.players, second),
        picked(player(m.players, first), m.questions[m.question as int].correct as int),
        picked(player(m.players, second), m.questions[m.question as int].correct as int),
        player(m.players, first).answer->0.at <= player(m.players, second).answer->0.at,
    ensures
        ({
            let players = revealed(m, now).players;
            let most = player(players, first).gained;
            let least = player(players, second).gained;
            &&& most is Some && least is Some
            &&& BASE_POINTS <= least->0 <= most->0 <= BASE_POINTS + SPEED_POINTS
            &&& player(m.players, first).answer->0.at < deadline(m.phase) && player(
                m.players,
                first,
            ).answer->0.at <= m.phase->started ==> most->0 == BASE_POINTS + SPEED_POINTS
        }),
{
    let started = m.phase->started;
    let ends = m.phase->Question_ends;
    let early = player(m.players, first).answer->0.at;
    reveal_pays_right_answers(m, first, now);
    reveal_pays_right_answers(m, second, now);
    faster_is_never_worse(started, ends, early, player(m.players, second).answer->0.at);
    if early < ends && early <= started {
        let window = if ends - started > 1 {
            ends - started
        } else {
            1
        };
        assert(500 * window / window == 500) by (nonlinear_arith)
            requires
                window >= 1,
        ;
    }
}

// Answers

/// What a player's pick becomes when an answer is accepted: the last choice
/// counts, with the time at which it was first made.
pub proof fn last_pick_counts(m: GameModel, id: PlayerId, seq: u64, choice: usize, now: u64)
    requires
        is_valid(m),
        answer_result(m, id, seq, choice, now) is Ok,
    ensures
        ({
            let after = after_answer(m, id, seq, choice, now);
            &&& pick_of(after.players, Some(id)) is Some
            &&& pick_of(after.players, Some(id))->0.choice == choice
            &&& pick_of(m.players, Some(id)) is Some && pick_of(m.players, Some(id))->0.choice
                == choice ==> pick_of(after.players, Some(id)) == pick_of(m.players, Some(id))
            &&& !(pick_of(m.players, Some(id)) is Some && pick_of(m.players, Some(id))->0.choice
                == choice) ==> pick_of(after.players, Some(id)) == Some(Answer { choice, at: now })
        }),
{
    with_player_changes_one(m.players, id, |p: PlayerModel| with_pick(p, choice, now));
}

/// An answer changes nobody else.
pub proof fn answers_are_ones_own(
    m: GameModel,
    id: PlayerId,
    seq: u64,
    choice: usize,
    now: u64,
    other: PlayerId,
)
    requires
        is_valid(m),
        other != id,
        knows(m.players, other),
    ensures
        player(after_answer(m, id, seq, choice, now).players, other) == player(m.players, other),
{
    with_player_changes_one(m.players, id, |p: PlayerModel| with_pick(p, choice, now));
}

/// A player who changes their mind still has one vote: the number of answers
/// grows by one with a first answer, and not with another.
pub proof fn one_vote_each(m: GameModel, id: PlayerId, seq: u64, choice: usize, now: u64)
    requires
        is_valid(m),
        answer_result(m, id, seq, choice, now) is Ok,
    ensures
        answered(after_answer(m, id, seq, choice, now).players) == answered(m.players) + if pick_of(
            m.players,
            Some(id),
        ) is Some {
            0nat
        } else {
            1nat
        },
{
    let f = |p: PlayerModel| with_pick(p, choice, now);
    let i = player_place(m.players, id);
    let after = after_answer(m, id, seq, choice, now);
    only_one_place(m.players, i, f);
    count_update(m.players, i, f(m.players[i]), |p: PlayerModel| has_answered(p));
}

/// Changing one player is replacing one element.
proof fn only_one_place(
    players: Seq<PlayerModel>,
    i: int,
    f: spec_fn(PlayerModel) -> PlayerModel,
)
    requires
        ids_increase(players),
        0 <= i < players.len(),
    ensures
        with_player(players, players[i].id, f) == players.update(i, f(players[i])),
{
    let id = players[i].id;
    let changed = with_player(players, id, f);
    assert forall|k: int| 0 <= k < players.len() implies changed[k] == players.update(
        i,
        f(players[i]),
    )[k] by {
        if k < i {
            assert(players[k].id < players[i].id);
        } else if k > i {
            assert(players[i].id < players[k].id);
        }
    }
    assert(changed =~= players.update(i, f(players[i])));
}

/// An answer that is too late, or quotes another question, or picks what is
/// not there, or comes from nobody, is refused and changes nothing.
pub proof fn refused_answers_change_nothing(
    m: GameModel,
    id: PlayerId,
    seq: u64,
    choice: usize,
    now: u64,
)
    ensures
        answer_result(m, id, seq, choice, now) is Ok <==> {
            &&& m.phase is Question
            &&& now < deadline(m.phase)
            &&& seq == m.seq
            &&& choice < m.questions[m.question as int].choices.len()
            &&& knows(m.players, id)
        },
        answer_result(m, id, seq, choice, now) is Err ==> after_answer(m, id, seq, choice, now)
            == m,
{
}

// Players

/// Someone who joins disturbs nobody.
pub proof fn joining_disturbs_nobody(
    m: GameModel,
    token: Seq<char>,
    name: Seq<char>,
    now: u64,
    other: PlayerId,
)
    requires
        is_valid(m),
        m.next_id < u64::MAX,
        m.players.len() < MAX_PLAYERS,
        is_free_name(m.players, name),
        knows(m.players, other),
    ensures
        knows(joined(m, token, name, now).players, other),
        player(joined(m, token, name, now).players, other) == player(m.players, other),
{
    joined_is_valid(m, token, name, now);
    let j = joined(m, token, name, now);
    let i = player_place(m.players, other);
    assert(j.players[i] == m.players[i]);
    player_at(j.players, i);
}

/// Whoever comes with a token is told that they are a player exactly if the
/// token is that player's, also when the game is full; then nothing changes.
pub proof fn known_tokens_keep_their_player(
    m: GameModel,
    token: Seq<char>,
    fresh: Seq<char>,
    name: Seq<char>,
    now: u64,
    id: PlayerId,
)
    ensures
        welcome(m, Some(token), fresh) == Some((id, None::<Seq<char>>)) <==> m.tokens.contains_key(
            token,
        ) && m.tokens[token] == id,
        m.tokens.contains_key(token) ==> welcomed(m, Some(token), fresh, name, now) == m,
        is_valid(m) && m.tokens.contains_key(token) ==> knows(m.players, m.tokens[token])
            && player(m.players, m.tokens[token]).token == token,
{
}

/// Someone new gets a number and a name that nobody has, no points, and a
/// token that leads back to them.
pub proof fn newcomers_get_a_player_of_their_own(
    m: GameModel,
    token: Option<Seq<char>>,
    fresh: Seq<char>,
    name: Seq<char>,
    now: u64,
    again: Seq<char>,
)
    requires
        is_valid(m),
        is_new(m, token),
        m.next_id < u64::MAX,
        is_free_name(m.players, name),
    ensures
        ({
            let after = welcomed(m, token, fresh, name, now);
            &&& welcome(m, token, fresh) == Some((m.next_id, Some(fresh)))
            &&& !knows(m.players, m.next_id)
            &&& knows(after.players, m.next_id)
            &&& player(after.players, m.next_id).name == name
            &&& player(after.players, m.next_id).score == 0
            &&& is_valid(after)
            &&& welcome(after, Some(fresh), again) == Some((m.next_id, None::<Seq<char>>))
        }),
{
    joined_is_valid(m, fresh, name, now);
    let after = joined(m, fresh, name, now);
    if knows(m.players, m.next_id) {
        let i = player_place(m.players, m.next_id);
        assert(is_sound(m, m.players[i]));
    }
    let n = m.players.len() as int;
    assert(after.players[n].id == m.next_id);
    player_at(after.players, n);
}

/// A game that is full turns strangers away and is left as it was.
pub proof fn full_games_turn_strangers_away(
    m: GameModel,
    token: Option<Seq<char>>,
    fresh: Seq<char>,
    name: Seq<char>,
    now: u64,
)
    requires
        m.players.len() >= MAX_PLAYERS,
        !is_known(m, token),
    ensures
        welcome(m, token, fresh) is None,
        welcomed(m, token, fresh, name, now) == m,
{
}

/// Opening a page adds one to the online count exactly for a player who has
/// none open; for someone who is no player nothing changes.
pub proof fn a_first_page_counts(m: GameModel, id: PlayerId, now: u64)
    requires
        is_valid(m),
        knows(m.players, id) ==> player(m.players, id).connections < u32::MAX,
    ensures
        online(connected(m, id, now).players) == online(m.players) + if knows(m.players, id)
            && !is_online(player(m.players, id)) {
            1nat
        } else {
            0nat
        },
        !knows(m.players, id) ==> connected(m, id, now) == m && disconnected(m, id, now) == m,
{
    if knows(m.players, id) {
        connections_come_and_go(m, id, now, now);
    } else {
        assert forall|i: int| 0 <= i < m.players.len() implies (#[trigger] m.players[i]).id
            != id by {
        }
        assert(connected(m, id, now).players =~= m.players);
        assert(disconnected(m, id, now).players =~= m.players);
    }
}

/// A page opened and closed again leaves a player as they were, but for when
/// they were last seen; and they are counted as online in between.
pub proof fn connections_come_and_go(m: GameModel, id: PlayerId, then: u64, now: u64)
    requires
        is_valid(m),
        knows(m.players, id),
        player(m.players, id).connections < u32::MAX,
    ensures
        ({
            let during = connected(m, id, then);
            let after = disconnected(during, id, now);
            let before = player(m.players, id);
            &&& player(during.players, id).connections == before.connections + 1
            &&& is_online(player(during.players, id))
            &&& player(after.players, id) == (PlayerModel { last_seen: now, ..before })
            &&& online(during.players) == online(m.players) + if is_online(before) {
                0nat
            } else {
                1nat
            }
            &&& online(after.players) == online(m.players)
        }),
{
    let open = |p: PlayerModel|
        PlayerModel { connections: (p.connections + 1) as u32, last_seen: then, ..p };
    let close = |p: PlayerModel|
        PlayerModel { connections: (p.connections - 1) as u32, last_seen: now, ..p };
    let during = connected(m, id, then);
    let after = disconnected(during, id, now);
    with_player_changes_one(m.players, id, open);
    assert(during.players == with_player(m.players, id, open));
    with_player_changes_one(during.players, id, close);
    let i = player_place(m.players, id);
    only_one_place(m.players, i, open);
    assert(during.players[i].id == id);
    only_one_place(during.players, i, close);
    let p = |p: PlayerModel| is_online(p);
    count_update(m.players, i, open(m.players[i]), p);
    count_update(during.players, i, close(during.players[i]), p);
}

// The clock

/// Before the deadline the clock changes nothing.
pub proof fn nothing_happens_before_the_deadline(m: GameModel, now: u64, order: Seq<usize>)
    requires
        now < deadline(m.phase),
    ensures
        ticked(m, now, order) == m,
        !is_due(m, false, now),
{
}

/// A question is followed by its reveal, a reveal by the next question or,
/// after the last one of a round, by the leaderboard, and that by the first
/// question of a new round. Every question has a number of its own.
pub proof fn phases_follow_each_other(m: GameModel, now: u64, order: Seq<usize>)
    requires
        is_valid(m),
        can_deal(m, order),
        advance_fits(m, now),
    ensures
        ({
            let next = advanced(m, now, order);
            match m.phase {
                Phase::Question { .. } => {
                    &&& next.phase == Phase::Reveal {
                        ends: (now + m.settings.reveal_seconds * 1000) as u64,
                    }
                    &&& next.seq == m.seq
                    &&& next.number == m.number
                },
                Phase::Reveal { .. } => if m.number >= m.settings.round_questions {
                    &&& next.phase == Phase::Leaderboard {
                        ends: (now + m.settings.leaderboard_seconds * 1000) as u64,
                    }
                    &&& next.seq == m.seq
                    &&& next.number == m.number
                } else {
                    &&& next.phase == Phase::Question {
                        started: now,
                        ends: (now + m.settings.question_seconds * 1000) as u64,
                    }
                    &&& next.seq == m.seq + 1
                    &&& next.number == m.number + 1
                },
                Phase::Leaderboard { .. } => {
                    &&& next.phase == Phase::Question {
                        started: now,
                        ends: (now + m.settings.question_seconds * 1000) as u64,
                    }
                    &&& next.seq == m.seq + 1
                    &&& next.number == 1
                },
            }
        }),
{
}

/// Whatever the clock does leaves a valid game valid.
pub proof fn the_clock_keeps_games_valid(m: GameModel, now: u64, order: Seq<usize>)
    requires
        is_valid(m),
        can_deal(m, order),
        advance_fits(m, now),
    ensures
        is_valid(advanced(m, now, order)),
{
    match m.phase {
        Phase::Question { .. } => {
            revealed_is_valid(m, now);
        },
        Phase::Reveal { .. } => {
            if m.number >= m.settings.round_questions {
                ranked_is_valid(m, now);
            } else {
                assert forall|i: int| 0 <= i < m.players.len() implies (
                #[trigger] m.players[i]).id < m.next_id && m.players[i].score <= (BASE_POINTS
                    + SPEED_POINTS) * m.number by {
                    assert(is_sound(m, m.players[i]));
                }
                started_is_valid(m, now, order);
            }
        },
        Phase::Leaderboard { .. } => {
            swept_can_start(m, now, order);
            started_is_valid(swept(m, now), now, order);
        },
    }
}

/// What the clock does to a player: nobody appears, and whoever is still there
/// keeps everything but points and, when a question opens, the answer.
pub proof fn the_clock_keeps_players(m: GameModel, id: PlayerId, now: u64, order: Seq<usize>)
    requires
        is_valid(m),
        can_deal(m, order),
        advance_fits(m, now),
    ensures
        ({
            let next = advanced(m, now, order);
            &&& knows(next.players, id) ==> knows(m.players, id)
            &&& !(m.phase is Leaderboard) ==> knows(next.players, id) == knows(m.players, id)
            &&& knows(next.players, id) ==> {
                let before = player(m.players, id);
                let after = player(next.players, id);
                &&& after.name == before.name
                &&& after.token == before.token
                &&& after.connections == before.connections
                &&& after.answer == if next.phase is Question {
                    None
                } else {
                    before.answer
                }
            }
            &&& online(next.players) == online(m.players)
        }),
{
    let next = advanced(m, now, order);
    the_clock_keeps_games_valid(m, now, order);
    let is_on = |p: PlayerModel| is_online(p);
    if m.phase is Leaderboard {
        let keep = |p: PlayerModel| is_kept(p, now);
        let kept = m.players.filter(keep);
        let s = swept(m, now);
        filtered_people(m.players, keep);
        count_filter(m.players, keep, is_on);
        count_same(kept, next.players, is_on, is_on);
        if knows(next.players, id) {
            let i = player_place(next.players, id);
            assert(next.players[i] == unanswered(s.players[i]));
            assert(kept[i].id == id);
            let k = choose|k: int| 0 <= k < m.players.len() && m.players[k] == kept[i];
            player_at(m.players, k);
        }
    } else {
        assert(next.players.len() == m.players.len());
        assert forall|i: int| 0 <= i < m.players.len() implies (#[trigger] next.players[i]).id
            == m.players[i].id && next.players[i].name == m.players[i].name
            && next.players[i].connections == m.players[i].connections && next.players[i].token
            == m.players[i].token by {
        }
        count_same(m.players, next.players, is_on, is_on);
        if knows(m.players, id) {
            let i = player_place(m.players, id);
            assert(next.players[i].id == id);
            player_at(next.players, i);
        }
        if knows(next.players, id) {
            let i = player_place(next.players, id);
            assert(m.players[i].id == id);
        }
    }
}

/// What a tick does to a player who stays: the reveal adds the gain that it
/// shows to the points, after that points and rank stay, and in a new round
/// there are none. Name and online count never change.
pub proof fn what_a_tick_does_to_a_player(m: GameModel, id: PlayerId, now: u64, order: Seq<usize>)
    requires
        is_valid(m),
        can_deal(m, order),
        now >= deadline(m.phase) ==> advance_fits(m, now),
        knows(m.players, id),
        knows(ticked(m, now, order).players, id),
    ensures
        ({
            let next = ticked(m, now, order);
            let before = me_shown(m, id);
            let after = me_shown(next, id);
            &&& after.name == before.name
            &&& online(next.players) == online(m.players)
            &&& now < deadline(m.phase) ==> next == m
            &&& now >= deadline(m.phase) ==> match m.phase {
                Phase::Question { .. } => match phase_shown(next, Some(id)) {
                    PhaseViewModel::Reveal { gained, .. } => after.score == before.score + match gained {
                        Some(points) => points as int,
                        None => 0,
                    },
                    _ => false,
                },
                Phase::Reveal { .. } => after.score == before.score && after.rank == before.rank,
                Phase::Leaderboard { .. } => after.score == 0 && after.rank is None,
            }
        }),
{
    if now >= deadline(m.phase) {
        let next = advanced(m, now, order);
        the_clock_keeps_players(m, id, now, order);
        the_clock_keeps_games_valid(m, now, order);
        let i = player_place(next.players, id);
        match m.phase {
            Phase::Question { .. } => {
                reveal_pays_right_answers(m, id, now);
            },
            Phase::Reveal { .. } => {
                assert(m.players[i].id == id);
                player_at(m.players, i);
                let score = m.players[i].score;
                assert(next.players[i].score == score);
                count_same(
                    m.players,
                    next.players,
                    |p: PlayerModel| p.score > score,
                    |p: PlayerModel| p.score > score,
                );
            },
            Phase::Leaderboard { .. } => {
                a_round_starts_from_zero(m, now, order);
            },
        }
    }
}

/// What a reveal shows a player, or the livestream: the question just asked,
/// with a vote counted for their own pick, and a gain exactly for the right
/// one.
pub proof fn what_a_reveal_shows(m: GameModel, id: Option<PlayerId>)
    requires
        is_valid(m),
        m.phase is Reveal,
        is_playable(m.questions[m.question as int]),
    ensures
        match phase_shown(m, id) {
            PhaseViewModel::Reveal {
                text,
                choices,
                correct,
                counts,
                explanation,
                answered,
                gained,
                ..
            } => {
                let question = m.questions[m.question as int];
                &&& text == question.text
                &&& choices == question.choices
                &&& correct == question.correct
                &&& explanation == question.explanation
                &&& correct < choices.len()
                &&& counts.len() == choices.len()
                &&& answered == choice_of(pick_of(m.players, id))
                &&& answered is Some ==> answered->0 < choices.len() && counts[answered->0 as int]
                    >= 1
                &&& gained is Some <==> answered == Some(correct)
            },
            _ => false,
        },
{
    if id is Some && knows(m.players, id->0) {
        let i = player_place(m.players, id->0);
        assert(is_sound(m, m.players[i]));
        if m.players[i].answer is Some {
            let c = m.players[i].answer->0.choice as int;
            count_some(m.players, i, |p: PlayerModel| picked(p, c));
            count_bound(m.players, |p: PlayerModel| picked(p, c));
        }
    }
}

/// The leaderboard is followed by a round in which nobody has points yet.
pub proof fn a_round_starts_from_zero(m: GameModel, now: u64, order: Seq<usize>)
    requires
        m.phase is Leaderboard,
    ensures
        ({
            let next = advanced(m, now, order);
            &&& forall|i: int|
                0 <= i < next.players.len() ==> (#[trigger] next.players[i]).score == 0
            &&& forall|i: int|
                0 <= i < next.players.len() ==> (#[trigger] next.players[i]).answer is None
            &&& top(next.players).len() == 0
        }),
{
    let next = advanced(m, now, order);
    let s = swept(m, now);
    assert forall|i: int| 0 <= i < next.players.len() implies (#[trigger] next.players[i]).score
        == 0 by {
        assert(next.players[i] == unanswered(s.players[i]));
    }
    count_none(next.players, |p: PlayerModel| has_scored(p));
}

/// Between rounds exactly those are forgotten who are offline and were not
/// seen for an hour; their tokens are forgotten with them.
pub proof fn the_long_gone_are_forgotten(m: GameModel, now: u64, id: PlayerId)
    requires
        is_valid(m),
    ensures
        knows(swept(m, now).players, id) <==> knows(m.players, id) && is_kept(
            player(m.players, id),
            now,
        ),
        forall|t: Seq<char>|
            m.tokens.contains_key(t) && !is_kept(player(m.players, m.tokens[t]), now)
                ==> !#[trigger] swept(m, now).tokens.contains_key(t),
{
    let keep = |p: PlayerModel| is_kept(p, now);
    let s = swept(m, now);
    let kept = m.players.filter(keep);
    filtered_people(m.players, keep);
    if knows(s.players, id) {
        let i = player_place(s.players, id);
        assert(kept[i].id == id);
        let k = choose|k: int| 0 <= k < m.players.len() && m.players[k] == kept[i];
        player_at(m.players, k);
    }
    if knows(m.players, id) && is_kept(player(m.players, id), now) {
        let k = player_place(m.players, id);
        assert(keep(m.players[k]));
        assert(kept.contains(m.players[k]));
        let i = choose|i: int| 0 <= i < kept.len() && kept[i] == m.players[k];
        assert(s.players[i].id == id);
    }
    assert forall|t: Seq<char>|
        m.tokens.contains_key(t) && !is_kept(
            player(m.players, m.tokens[t]),
            now,
        ) implies !#[trigger] s.tokens.contains_key(t) by {
        let k = player_place(m.players, m.tokens[t]);
        assert(m.players[k].token == t);
        assert(forgotten_tokens(m.players, now).contains(t));
    }
}

/// In a fast game, where anyone is online, the last answer that is missing
/// closes the question.
pub proof fn the_last_answer_closes_a_fast_question(
    m: GameModel,
    id: PlayerId,
    seq: u64,
    choice: usize,
    now: u64,
)
    requires
        is_valid(m),
        answer_result(m, id, seq, choice, now) is Ok,
        online(m.players) > 0,
        forall|i: int|
            0 <= i < m.players.len() && is_online(#[trigger] m.players[i]) && m.players[i].id != id
                ==> has_answered(m.players[i]),
    ensures
        is_due(after_answer(m, id, seq, choice, now), true, now),
{
    let after = after_answer(m, id, seq, choice, now);
    count_same(
        m.players,
        after.players,
        |p: PlayerModel| is_online(p),
        |p: PlayerModel| is_online(p),
    );
    assert forall|k: int| 0 <= k < after.players.len() && is_online(
        #[trigger] after.players[k],
    ) implies has_answered(after.players[k]) by {
        assert(is_online(m.players[k]));
    }
}

/// A fast question stays open before its deadline while someone who is online
/// has not answered, or nobody is online.
pub proof fn a_fast_question_waits_for_everyone(m: GameModel, now: u64)
    requires
        m.phase is Question,
        now < deadline(m.phase),
        online(m.players) == 0 || exists|i: int|
            0 <= i < m.players.len() && is_online(#[trigger] m.players[i]) && !has_answered(
                m.players[i],
            ),
    ensures
        !is_due(m, true, now),
{
}

// The deck

/// No question is asked twice in a row, unless it is the only one.
pub proof fn no_question_twice_in_a_row(m: GameModel, now: u64, order: Seq<usize>)
    requires
        is_valid(m),
        can_deal(m, order),
        m.questions.len() > 1,
    ensures
        started(m, now, order).question != m.question,
{
    dealt_is_sound(m, order);
    if m.deck.len() > 0 {
        assert(m.deck.contains(m.deck.last()));
    } else if order.last() == m.question {
        assert(order[0] != order[order.len() - 1]);
    }
}

/// Every question is asked once before any is asked again: a new deck, with
/// the question that opens, holds each question once; and what is left of a
/// deck is asked one after the other.
pub proof fn every_question_has_its_turn(m: GameModel, now: u64, order: Seq<usize>)
    requires
        is_valid(m),
        can_deal(m, order),
    ensures
        ({
            let next = started(m, now, order);
            &&& m.deck.len() == 0 ==> is_shuffle(
                next.deck.push(next.question),
                m.questions.len(),
            )
            &&& m.deck.len() > 0 ==> next.deck.push(next.question) == m.deck
        }),
{
    dealt_is_sound(m, order);
    let next = started(m, now, order);
    let deck = dealt(m, order);
    assert(next.deck.push(next.question) =~= deck);
}

/// A shuffle holds every question.
pub proof fn shuffles_hold_every_question(order: Seq<usize>, n: nat, q: usize)
    requires
        is_shuffle(order, n),
        n <= usize::MAX,
        q < n,
    ensures
        order.contains(q),
{
    let all = Set::new(|x: usize| x < n);
    let held = order.to_set();
    order.unique_seq_to_set();
    below_is_finite(n);
    assert(held.subset_of(all)) by {
        assert forall|x: usize| held.contains(x) implies all.contains(x) by {
            let i = choose|i: int| 0 <= i < order.len() && order[i] == x;
            assert(order[i] < n);
        }
    }
    lemma_subset_equality(held, all);
    assert(held.contains(q));
}

proof fn below_is_finite(n: nat)
    requires
        n <= usize::MAX,
    ensures
        Set::new(|x: usize| x < n).finite(),
        Set::new(|x: usize| x < n).len() == n,
    decreases n,
{
    let all = Set::new(|x: usize| x < n);
    if n == 0 {
        assert(all =~= Set::empty());
    } else {
        let m = (n - 1) as nat;
        below_is_finite(m);
        let rest = Set::new(|x: usize| x < m);
        let last = m as usize;
        assert(all =~= rest.insert(last));
    }
}

// The leaderboard

/// More points, a better rank; as many points, the same rank.
pub proof fn points_decide_the_rank(players: Seq<PlayerModel>, i: int, j: int)
    requires
        0 <= i < players.len(),
        0 <= j < players.len(),
        has_scored(players[i]),
        has_scored(players[j]),
    ensures
        players[i].score > players[j].score ==> rank(players, players[i])->0 < rank(
            players,
            players[j],
        )->0,
        players[i].score == players[j].score ==> rank(players, players[i]) == rank(
            players,
            players[j],
        ),
{
    if players[i].score > players[j].score {
        ties_skip(players, players[i].score, players[j].score);
        count_some(players, i, |p: PlayerModel| p.score == players[i].score);
    }
}

/// How many players have exactly this many points.
pub open spec fn tied(players: Seq<PlayerModel>, score: u64) -> nat {
    count(players, |p: PlayerModel| p.score == score)
}

/// Those who are tied share a place, and the next one skips as many places:
/// whoever has fewer points comes after all of them.
pub proof fn ties_skip(players: Seq<PlayerModel>, more: u64, fewer: u64)
    requires
        more > fewer,
    ensures
        ahead(players, fewer) >= ahead(players, more) + tied(players, more),
    decreases players.len(),
{
    if players.len() > 0 {
        ties_skip(players.drop_last(), more, fewer);
    }
}

/// Someone is first where anyone has points.
pub proof fn someone_is_first(players: Seq<PlayerModel>)
    requires
        scored(players) > 0,
    ensures
        exists|i: int|
            0 <= i < players.len() && rank(players, #[trigger] players[i]) == Some(1nat),
{
    let i = best(players);
    assert forall|k: int| 0 <= k < players.len() implies !(players[k].score > players[i].score) by {
    }
    count_none(players, |p: PlayerModel| p.score > players[i].score);
    if !has_scored(players[i]) {
        count_none(players, |p: PlayerModel| has_scored(p));
    }
    assert(rank(players, players[i]) == Some(1nat));
}

proof fn best(players: Seq<PlayerModel>) -> (i: int)
    requires
        players.len() > 0,
    ensures
        0 <= i < players.len(),
        forall|k: int| 0 <= k < players.len() ==> players[k].score <= players[i].score,
    decreases players.len(),
{
    let last = players.len() - 1;
    if last == 0 {
        0
    } else {
        let rest = players.drop_last();
        let i = best(rest);
        assert(forall|k: int| 0 <= k < rest.len() ==> rest[k] == players[k]);
        if players[last].score > players[i].score {
            last
        } else {
            i
        }
    }
}

/// The leaderboard holds no more than its size, only players with points,
/// each with their rank, the best first, and those with as many points by
/// name.
pub proof fn the_leaderboard_is_in_order(players: Seq<PlayerModel>, i: int, j: int)
    requires
        0 <= i < j < top(players).len(),
    ensures
        top(players).len() <= LEADERBOARD_SIZE,
        top(players)[i].score > 0 && top(players)[j].score > 0,
        top(players)[i].score > top(players)[j].score || (top(players)[i].score == top(
            players,
        )[j].score && lex_le(top(players)[i].name, top(players)[j].name)),
        top(players)[i].rank <= top(players)[j].rank,
{
    let keys = players.map_values(|p: PlayerModel| standing_key(p));
    order_is_sorted(keys);
    count_bound(players, |p: PlayerModel| has_scored(p));
    let a = standing_order(players)[i];
    let b = standing_order(players)[j];
    assert(listed(keys, a, b));
    scored_come_first(players);
    assert(has_scored(players[a]) && has_scored(players[b]));
    lex_total(players[a].name, players[a].name);
    if players[a].score > players[b].score {
        ties_skip(players, players[a].score, players[b].score);
    }
}

/// Those who are on the leaderboard have points, and nobody who has points is
/// left out for someone with fewer, or with as many and a later name.
pub proof fn the_leaderboard_holds_the_best(players: Seq<PlayerModel>, i: int, k: int)
    requires
        0 <= i < top(players).len(),
        0 <= k < players.len(),
        has_scored(players[k]),
        forall|j: int|
            0 <= j < top(players).len() ==> (#[trigger] standing_order(players)[j]) != k,
    ensures
        top(players).len() == LEADERBOARD_SIZE,
        top(players)[i].score > 0,
        top(players)[i].score > players[k].score || (top(players)[i].score == players[k].score
            && lex_le(top(players)[i].name, players[k].name)),
{
    let keys = players.map_values(|p: PlayerModel| standing_key(p));
    order_is_sorted(keys);
    count_bound(players, |p: PlayerModel| has_scored(p));
    assert(standing_order(players).contains(k));
    let j = choose|j: int| 0 <= j < players.len() && standing_order(players)[j] == k;
    scored_come_first(players);
    assert(has_scored(players[standing_order(players)[i]]));
    assert(has_scored(players[standing_order(players)[j]]));
    assert(i < j);
    assert(listed(keys, standing_order(players)[i], k));
    lex_total(players[k].name, players[k].name);
}

} // verus!
