//! Whole games: what holds after any number of events, in any order, since a
//! game began.

use crate::count::{count, count_same};
use crate::game::opened;
use crate::laws::{
    every_question_has_its_turn, joining_disturbs_nobody, no_question_twice_in_a_row,
    the_clock_keeps_games_valid, the_clock_keeps_players,
};
use crate::quiz::QuestionModel;
use crate::state::{
    advance_fits, advanced, after, after_answer, answer_result, can_deal, choice_of, connected,
    disconnected, is_free_name, is_new, is_online, is_shuffle, is_sound, is_valid, knows, online,
    player, started, welcomed, with_pick, GameModel, PlayerId, PlayerModel, SettingsModel,
};
use crate::upkeep::{
    can_start, joined_is_valid, player_at, player_place, started_is_valid, with_player_changes_one,
    with_player_is_valid,
};
use vstd::prelude::*;

verus! {

/// What can happen to a game. What chance decides is part of the event.
pub enum Event {
    /// The current phase is over.
    Advance { now: u64, order: Seq<usize> },
    /// Someone comes, who gets this token and name if they are new.
    Join { token: Option<Seq<char>>, fresh: Seq<char>, name: Seq<char>, now: u64 },
    /// A page of a player is opened.
    Connect { id: PlayerId, now: u64 },
    /// A page of a player is closed.
    Disconnect { id: PlayerId, now: u64 },
    /// A player picks a choice.
    Pick { id: PlayerId, seq: u64, choice: usize, now: u64 },
}

/// Whether an event can happen: numbers do not run out, and only an open page
/// is closed.
pub open spec fn can_happen(m: GameModel, e: Event) -> bool {
    match e {
        Event::Advance { now, order } => can_deal(m, order) && advance_fits(m, now),
        Event::Join { token, name, .. } => is_new(m, token) ==> m.next_id < u64::MAX
            && is_free_name(m.players, name),
        Event::Connect { id, .. } => knows(m.players, id) ==> player(m.players, id).connections
            < u32::MAX,
        Event::Disconnect { id, .. } => knows(m.players, id) ==> player(
            m.players,
            id,
        ).connections > 0,
        Event::Pick { .. } => true,
    }
}

/// The game after an event.
pub open spec fn after_event(m: GameModel, e: Event) -> GameModel {
    match e {
        Event::Advance { now, order } => advanced(m, now, order),
        Event::Join { token, fresh, name, now } => welcomed(m, token, fresh, name, now),
        Event::Connect { id, now } => connected(m, id, now),
        Event::Disconnect { id, now } => disconnected(m, id, now),
        Event::Pick { id, seq, choice, now } => after_answer(m, id, seq, choice, now),
    }
}

/// The game after these events.
pub open spec fn played(start: GameModel, events: Seq<Event>) -> GameModel
    decreases events.len(),
{
    if events.len() == 0 {
        start
    } else {
        after_event(played(start, events.drop_last()), events.last())
    }
}

/// These events can happen one after the other.
pub open spec fn can_be_played(start: GameModel, events: Seq<Event>) -> bool
    decreases events.len(),
{
    events.len() > 0 ==> can_be_played(start, events.drop_last()) && can_happen(
        played(start, events.drop_last()),
        events.last(),
    )
}

/// A game that has just begun: its first question is open and nobody has come.
pub open spec fn is_new_game(m: GameModel) -> bool {
    exists|settings: SettingsModel, questions: Seq<QuestionModel>, now: u64, order: Seq<usize>|
        {
            &&& questions.len() > 0
            &&& is_shuffle(order, questions.len())
            &&& after(now, settings.question_seconds) <= u64::MAX
            &&& m == #[trigger] started(opened(settings, questions, now), now, order)
        }
}

/// A game that has just begun is valid, has no players, and its deck with the
/// open question holds every question once.
proof fn new_games_are_valid(m: GameModel)
    requires
        is_new_game(m),
    ensures
        is_valid(m),
        m.players.len() == 0,
        m.questions.len() > 0,
        is_shuffle(m.deck.push(m.question), m.questions.len()),
{
    let (settings, questions, now, order) = choose|
        settings: SettingsModel,
        questions: Seq<QuestionModel>,
        now: u64,
        order: Seq<usize>,
    |
        {
            &&& questions.len() > 0
            &&& is_shuffle(order, questions.len())
            &&& after(now, settings.question_seconds) <= u64::MAX
            &&& m == #[trigger] started(opened(settings, questions, now), now, order)
        };
    let before = opened(settings, questions, now);
    assert(can_start(before, now, order));
    started_is_valid(before, now, order);
    assert(m.deck.push(m.question) =~= order);
}

proof fn events_keep_games_valid(m: GameModel, e: Event)
    requires
        is_valid(m),
        can_happen(m, e),
    ensures
        is_valid(after_event(m, e)),
{
    match e {
        Event::Advance { now, order } => {
            the_clock_keeps_games_valid(m, now, order);
        },
        Event::Join { token, fresh, name, now } => {
            if is_new(m, token) {
                joined_is_valid(m, fresh, name, now);
            }
        },
        Event::Connect { id, now } => {
            with_player_is_valid(
                m,
                id,
                |p: PlayerModel|
                    PlayerModel { connections: (p.connections + 1) as u32, last_seen: now, ..p },
            );
        },
        Event::Disconnect { id, now } => {
            with_player_is_valid(
                m,
                id,
                |p: PlayerModel|
                    PlayerModel { connections: (p.connections - 1) as u32, last_seen: now, ..p },
            );
        },
        Event::Pick { id, seq, choice, now } => {
            if answer_result(m, id, seq, choice, now) is Ok {
                with_player_is_valid(m, id, |p: PlayerModel| with_pick(p, choice, now));
            }
        },
    }
}

/// A game is valid after whatever happened.
pub proof fn games_stay_valid(start: GameModel, events: Seq<Event>)
    requires
        is_valid(start),
        can_be_played(start, events),
    ensures
        is_valid(played(start, events)),
    decreases events.len(),
{
    if events.len() > 0 {
        games_stay_valid(start, events.drop_last());
        events_keep_games_valid(played(start, events.drop_last()), events.last());
    }
}

/// What an event does to one player.
proof fn what_an_event_does(m: GameModel, e: Event, id: PlayerId)
    requires
        is_valid(m),
        can_happen(m, e),
    ensures
        ({
            let next = after_event(m, e);
            &&& next.next_id >= m.next_id
            &&& id >= m.next_id ==> !knows(m.players, id)
            &&& knows(next.players, id) && !knows(m.players, id) ==> {
                &&& id == m.next_id
                &&& player(next.players, id).connections == 0
                &&& player(next.players, id).answer is None
            }
            &&& knows(next.players, id) && knows(m.players, id) ==> {
                let before = player(m.players, id);
                let now = player(next.players, id);
                &&& now.connections == before.connections + match e {
                    Event::Connect { id: other, .. } => if other == id {
                        1int
                    } else {
                        0
                    },
                    Event::Disconnect { id: other, .. } => if other == id {
                        -1int
                    } else {
                        0
                    },
                    _ => 0,
                }
                &&& choice_of(now.answer) == match e {
                    Event::Pick { id: other, seq, choice, now } => if other == id
                        && answer_result(m, id, seq, choice, now) is Ok {
                        Some(choice)
                    } else {
                        choice_of(before.answer)
                    },
                    Event::Advance { .. } => if next.phase is Question {
                        None
                    } else {
                        choice_of(before.answer)
                    },
                    _ => choice_of(before.answer),
                }
            }
        }),
{
    let next = after_event(m, e);
    if knows(m.players, id) {
        let i = player_place(m.players, id);
        assert(is_sound(m, m.players[i]));
    }
    match e {
        Event::Advance { now, order } => {
            the_clock_keeps_players(m, id, now, order);
        },
        Event::Join { token, fresh, name, now } => {
            if is_new(m, token) {
                joined_is_valid(m, fresh, name, now);
                if knows(m.players, id) {
                    joining_disturbs_nobody(m, fresh, name, now, id);
                } else if knows(next.players, id) {
                    let i = player_place(next.players, id);
                    if i < m.players.len() {
                        assert(m.players[i].id == id);
                    }
                }
            }
        },
        Event::Connect { id: other, now } => {
            with_player_changes_one(
                m.players,
                other,
                |p: PlayerModel|
                    PlayerModel { connections: (p.connections + 1) as u32, last_seen: now, ..p },
            );
            assert(knows(next.players, id) == knows(m.players, id));
        },
        Event::Disconnect { id: other, now } => {
            with_player_changes_one(
                m.players,
                other,
                |p: PlayerModel|
                    PlayerModel { connections: (p.connections - 1) as u32, last_seen: now, ..p },
            );
            assert(knows(next.players, id) == knows(m.players, id));
        },
        Event::Pick { id: other, seq, choice, now } => {
            with_player_changes_one(m.players, other, |p: PlayerModel| with_pick(p, choice, now));
            assert(knows(next.players, id) == knows(m.players, id));
        },
    }
}

// Pages

/// How many more pages a player opened than closed.
pub open spec fn open_pages(start: GameModel, events: Seq<Event>, id: PlayerId) -> int
    decreases events.len(),
{
    if events.len() == 0 {
        0
    } else {
        let before = played(start, events.drop_last());
        open_pages(start, events.drop_last(), id) + match events.last() {
            Event::Connect { id: other, .. } => if other == id && knows(before.players, id) {
                1int
            } else {
                0
            },
            Event::Disconnect { id: other, .. } => if other == id && knows(before.players, id) {
                -1int
            } else {
                0
            },
            _ => 0,
        }
    }
}

proof fn pages_are_counted(start: GameModel, events: Seq<Event>, id: PlayerId)
    requires
        is_new_game(start),
        can_be_played(start, events),
    ensures
        ({
            let m = played(start, events);
            &&& knows(m.players, id) ==> player(m.players, id).connections == open_pages(
                start,
                events,
                id,
            )
            &&& id >= m.next_id ==> open_pages(start, events, id) == 0
        }),
    decreases events.len(),
{
    new_games_are_valid(start);
    if events.len() > 0 {
        let rest = events.drop_last();
        pages_are_counted(start, rest, id);
        games_stay_valid(start, rest);
        what_an_event_does(played(start, rest), events.last(), id);
    }
}

/// In every state of a game the online count is the number of players who
/// opened more pages than they closed.
pub proof fn the_online_count_is_right(start: GameModel, events: Seq<Event>)
    requires
        is_new_game(start),
        can_be_played(start, events),
    ensures
        online(played(start, events).players) == count(
            played(start, events).players,
            |p: PlayerModel| open_pages(start, events, p.id) > 0,
        ),
{
    let players = played(start, events).players;
    new_games_are_valid(start);
    games_stay_valid(start, events);
    let p = |p: PlayerModel| is_online(p);
    let q = |p: PlayerModel| open_pages(start, events, p.id) > 0;
    assert forall|i: int| 0 <= i < players.len() implies p(#[trigger] players[i]) == q(
        players[i],
    ) by {
        pages_are_counted(start, events, players[i].id);
        player_at(players, i);
    }
    count_same(players, players, p, q);
}

// Picks

/// The choice of a player's last accepted answer to the current question.
pub open spec fn last_choice(start: GameModel, events: Seq<Event>, id: PlayerId) -> Option<usize>
    decreases events.len(),
{
    if events.len() == 0 {
        None
    } else {
        let before = played(start, events.drop_last());
        let earlier = last_choice(start, events.drop_last(), id);
        match events.last() {
            Event::Pick { id: other, seq, choice, now } => if other == id && answer_result(
                before,
                id,
                seq,
                choice,
                now,
            ) is Ok {
                Some(choice)
            } else {
                earlier
            },
            Event::Advance { .. } => if played(start, events).phase is Question {
                None
            } else {
                earlier
            },
            _ => earlier,
        }
    }
}

/// In every state of a game a player's pick is the choice of their last
/// accepted answer to the current question, and there is none if there was no
/// such answer.
pub proof fn the_last_answer_counts(start: GameModel, events: Seq<Event>, id: PlayerId)
    requires
        is_new_game(start),
        can_be_played(start, events),
    ensures
        ({
            let m = played(start, events);
            &&& knows(m.players, id) ==> choice_of(player(m.players, id).answer) == last_choice(
                start,
                events,
                id,
            )
            &&& id >= m.next_id ==> last_choice(start, events, id) is None
        }),
    decreases events.len(),
{
    new_games_are_valid(start);
    if events.len() > 0 {
        let rest = events.drop_last();
        the_last_answer_counts(start, rest, id);
        games_stay_valid(start, rest);
        what_an_event_does(played(start, rest), events.last(), id);
    }
}

// Questions

/// The questions asked so far, in order.
pub open spec fn asked(start: GameModel, events: Seq<Event>) -> Seq<usize>
    decreases events.len(),
{
    if events.len() == 0 {
        seq![start.question]
    } else {
        let earlier = asked(start, events.drop_last());
        let m = played(start, events);
        if events.last() is Advance && m.phase is Question {
            earlier.push(m.question)
        } else {
            earlier
        }
    }
}

/// The `j`th block of `n` questions that were asked.
pub open spec fn block(asked: Seq<usize>, n: int, j: int) -> Seq<usize> {
    asked.subrange(j * n, j * n + n)
}

/// All blocks but the last are shuffles of the questions; the last one, which
/// is the `k`th, is with what is left of the deck.
spec fn is_dealt_out(asked: Seq<usize>, deck: Seq<usize>, n: int, k: int) -> bool {
    &&& n > 0
    &&& k >= 0
    &&& deck.len() < n
    &&& asked.len() == k * n + n - deck.len()
    &&& is_shuffle(asked.skip(k * n) + deck, n as nat)
    &&& forall|j: int| 0 <= j < k ==> is_shuffle(#[trigger] block(asked, n, j), n as nat)
}

/// Drawing the last of a row into the middle keeps a shuffle.
proof fn drawing_keeps_a_shuffle(drawn: Seq<usize>, deck: Seq<usize>, n: nat)
    requires
        is_shuffle(drawn + deck, n),
        deck.len() > 0,
    ensures
        is_shuffle(drawn.push(deck.last()) + deck.drop_last(), n),
{
    let a = drawn + deck;
    let b = drawn.push(deck.last()) + deck.drop_last();
    let d = drawn.len() as int;
    let place = |i: int|
        if i < d {
            i
        } else if i == d {
            a.len() - 1
        } else {
            i - 1
        };
    assert forall|i: int| 0 <= i < b.len() implies (#[trigger] b[i]) == a[place(i)] && 0 <= place(i)
        < a.len() by {
    }
    assert forall|i: int, j: int| 0 <= i < j < b.len() implies b[i] != b[j] by {
        assert(place(i) != place(j));
        assert(a[place(i)] != a[place(j)]);
    }
}

/// The blocks that are complete stay as they are.
proof fn blocks_stay(asked: Seq<usize>, q: usize, n: int, j: int)
    requires
        n > 0,
        j >= 0,
        j * n + n <= asked.len(),
    ensures
        block(asked.push(q), n, j) == block(asked, n, j),
{
    assert(0 <= j * n) by (nonlinear_arith)
        requires
            j >= 0,
            n > 0,
    ;
    assert(block(asked.push(q), n, j) =~= block(asked, n, j));
}

/// One more question is asked.
proof fn dealing_goes_on(
    asked: Seq<usize>,
    deck: Seq<usize>,
    q: usize,
    rest: Seq<usize>,
    n: int,
    k: int,
) -> (next: int)
    requires
        is_dealt_out(asked, deck, n, k),
        deck.len() > 0 ==> rest.push(q) == deck,
        deck.len() == 0 ==> is_shuffle(rest.push(q), n as nat),
    ensures
        is_dealt_out(asked.push(q), rest, n, next),
{
    let more = asked.push(q);
    let all = n as nat;
    assert(0 <= k * n) by (nonlinear_arith)
        requires
            k >= 0,
            n > 0,
    ;
    assert forall|j: int| 0 <= j < k implies is_shuffle(#[trigger] block(more, n, j), all) by {
        assert(j * n + n <= k * n) by (nonlinear_arith)
            requires
                j < k,
                n > 0,
        ;
        blocks_stay(asked, q, n, j);
        assert(is_shuffle(block(asked, n, j), all));
    }
    if deck.len() > 0 {
        drawing_keeps_a_shuffle(asked.skip(k * n), deck, all);
        assert(deck.last() == q);
        assert(rest =~= deck.drop_last());
        assert(more.skip(k * n) =~= asked.skip(k * n).push(q));
        k
    } else {
        let next = k + 1;
        assert(next * n == k * n + n) by (nonlinear_arith)
            requires
                next == k + 1,
        ;
        assert(asked.skip(k * n) + deck =~= block(asked, n, k));
        blocks_stay(asked, q, n, k);
        drawing_keeps_a_shuffle(Seq::empty(), Seq::<usize>::empty() + rest.push(q), all);
        assert(Seq::<usize>::empty() + rest.push(q) =~= rest.push(q));
        assert(more.skip(next * n) =~= seq![q]);
        assert(Seq::<usize>::empty().push(q) + rest.push(q).drop_last() =~= more.skip(next * n)
            + rest);
        assert forall|j: int| 0 <= j < next implies is_shuffle(
            #[trigger] block(more, n, j),
            all,
        ) by {
            if j == k {
                assert(block(more, n, j) == block(asked, n, k));
            }
        }
        next
    }
}

proof fn questions_are_dealt_out(start: GameModel, events: Seq<Event>) -> (k: int)
    requires
        is_new_game(start),
        can_be_played(start, events),
    ensures
        played(start, events).questions == start.questions,
        is_dealt_out(
            asked(start, events),
            played(start, events).deck,
            start.questions.len() as int,
            k,
        ),
        asked(start, events).last() == played(start, events).question,
    decreases events.len(),
{
    new_games_are_valid(start);
    let n = start.questions.len() as int;
    let now = played(start, events);
    if events.len() == 0 {
        let all = start.deck.push(start.question);
        drawing_keeps_a_shuffle(Seq::empty(), Seq::<usize>::empty() + all, n as nat);
        assert(Seq::<usize>::empty() + all =~= all);
        assert(asked(start, events).skip(0 * n) =~= seq![start.question]);
        assert(Seq::<usize>::empty().push(start.question) + all.drop_last() =~= asked(
            start,
            events,
        ).skip(0 * n) + start.deck);
        0
    } else {
        let rest = events.drop_last();
        let m = played(start, rest);
        let k = questions_are_dealt_out(start, rest);
        games_stay_valid(start, rest);
        let earlier = asked(start, rest);
        match events.last() {
            Event::Advance { now: at, order } => {
                if now.phase is Question {
                    every_question_has_its_turn(m, at, order);
                    let next = started(m, at, order);
                    assert(now.question == next.question && now.deck == next.deck);
                    dealing_goes_on(earlier, m.deck, now.question, now.deck, n, k)
                } else {
                    k
                }
            },
            _ => k,
        }
    }
}

/// However long a game is played, each block of as many questions as there
/// are holds every question once: none repeats before all have been asked.
pub proof fn no_question_repeats_before_all_were_asked(
    start: GameModel,
    events: Seq<Event>,
    j: int,
)
    requires
        is_new_game(start),
        can_be_played(start, events),
        0 <= j,
        (j + 1) * start.questions.len() <= asked(start, events).len(),
    ensures
        is_shuffle(
            block(asked(start, events), start.questions.len() as int, j),
            start.questions.len(),
        ),
{
    let n = start.questions.len() as int;
    let d = asked(start, events);
    let deck = played(start, events).deck;
    let k = questions_are_dealt_out(start, events);
    if j >= k {
        assert(j == k && deck.len() == 0) by (nonlinear_arith)
            requires
                j >= k,
                k >= 0,
                n > 0,
                (j + 1) * n <= d.len(),
                d.len() == k * n + n - deck.len(),
                deck.len() >= 0,
        ;
        assert(d.skip(k * n) + deck =~= block(d, n, j));
    }
}

/// However long a game is played, no question is asked twice in a row, unless
/// it is the only one.
pub proof fn no_question_is_repeated_at_once(start: GameModel, events: Seq<Event>, i: int)
    requires
        is_new_game(start),
        can_be_played(start, events),
        start.questions.len() > 1,
        0 <= i < asked(start, events).len() - 1,
    ensures
        asked(start, events)[i] != asked(start, events)[i + 1],
    decreases events.len(),
{
    if events.len() > 0 {
        let rest = events.drop_last();
        let m = played(start, rest);
        let earlier = asked(start, rest);
        let k = questions_are_dealt_out(start, rest);
        new_games_are_valid(start);
        games_stay_valid(start, rest);
        if i < earlier.len() - 1 {
            no_question_is_repeated_at_once(start, rest, i);
        } else {
            match events.last() {
                Event::Advance { now, order } => {
                    no_question_twice_in_a_row(m, now, order);
                    assert(played(start, events).question == started(m, now, order).question);
                },
                _ => {},
            }
        }
    }
}

} // verus!
