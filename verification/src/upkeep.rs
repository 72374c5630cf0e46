//! Every event leaves a valid game valid.

use crate::count::{count, count_bound, count_none, count_same};
use crate::state::{
    answered, can_deal, dealt, forgotten_tokens, has_answered, ids_increase, is_free_name, is_kept,
    is_shuffle, is_sound, is_valid, joined, knows, names_differ, picked, player, ranked, revealed,
    start_fits, started, swept, tally_of, tokens_lead, total, votes, with_player, worth, GameModel,
    PlayerId, PlayerModel, BASE_POINTS, MAX_PLAYERS, SPEED_POINTS,
};
use vstd::prelude::*;

verus! {

/// There is only one player with a number.
pub proof fn player_at(players: Seq<PlayerModel>, i: int)
    requires
        ids_increase(players),
        0 <= i < players.len(),
    ensures
        knows(players, players[i].id),
        player(players, players[i].id) == players[i],
{
    let id = players[i].id;
    let j = choose|j: int| 0 <= j < players.len() && (#[trigger] players[j]).id == id;
    assert(players[i].id == id);
    if j < i {
        assert(players[j].id < players[i].id);
    } else if i < j {
        assert(players[i].id < players[j].id);
    }
}

/// Where a known player is.
pub proof fn player_place(players: Seq<PlayerModel>, id: PlayerId) -> (i: int)
    requires
        knows(players, id),
    ensures
        0 <= i < players.len(),
        players[i].id == id,
        player(players, id) == players[i],
{
    choose|i: int| 0 <= i < players.len() && (#[trigger] players[i]).id == id
}

/// What a right answer is worth is between the base and the base with all
/// speed points.
pub proof fn worth_bounds(started: u64, ends: u64, at: u64)
    requires
        started <= ends,
    ensures
        BASE_POINTS <= worth(started, ends, at) <= BASE_POINTS + SPEED_POINTS,
{
    let window = if ends - started > 1 {
        ends - started
    } else {
        1
    };
    let left = if at >= ends {
        0
    } else if ends - at > window {
        window
    } else {
        ends - at
    };
    assert(0 <= SPEED_POINTS * left / window <= SPEED_POINTS) by (nonlinear_arith)
        requires
            0 <= left <= window,
            window >= 1,
            SPEED_POINTS == 500,
    ;
}

/// Changing what a list of players says of its members, but not who they are.
proof fn same_people(before: Seq<PlayerModel>, after: Seq<PlayerModel>)
    requires
        before.len() == after.len(),
        forall|i: int|
            0 <= i < before.len() ==> (#[trigger] after[i]).id == before[i].id && after[i].name
                == before[i].name && after[i].token == before[i].token,
        ids_increase(before),
        names_differ(before),
    ensures
        ids_increase(after),
        names_differ(after),
        forall|id: PlayerId| #[trigger]
            knows(before, id) ==> knows(after, id) && player(after, id).token == player(
                before,
                id,
            ).token,
{
    assert forall|i: int, j: int| 0 <= i < j < after.len() implies (#[trigger] after[i]).id < (
    #[trigger] after[j]).id && after[i].name != after[j].name by {
        assert(before[i].id < before[j].id);
    }
    assert forall|id: PlayerId| #[trigger] knows(before, id) implies knows(after, id) && player(
        after,
        id,
    ).token == player(before, id).token by {
        let i = player_place(before, id);
        assert(after[i].id == id);
        player_at(after, i);
        player_at(before, i);
    }
}

/// What has to hold for the next question to open.
pub open spec fn can_start(m: GameModel, now: u64, order: Seq<usize>) -> bool {
    &&& m.questions.len() > 0
    &&& m.deck.no_duplicates()
    &&& forall|i: int| 0 <= i < m.deck.len() ==> (#[trigger] m.deck[i]) < m.questions.len()
    &&& can_deal(m, order)
    &&& start_fits(m, now)
    &&& m.number < u32::MAX
    &&& m.players.len() <= MAX_PLAYERS
    &&& ids_increase(m.players)
    &&& names_differ(m.players)
    &&& forall|i: int|
        0 <= i < m.players.len() ==> (#[trigger] m.players[i]).id < m.next_id && m.players[i].score
            <= (BASE_POINTS + SPEED_POINTS) * m.number
    &&& tokens_lead(m)
}

/// The deck drawn from holds each question at most once.
pub proof fn dealt_is_sound(m: GameModel, order: Seq<usize>)
    requires
        m.questions.len() > 0,
        m.deck.no_duplicates(),
        forall|i: int| 0 <= i < m.deck.len() ==> (#[trigger] m.deck[i]) < m.questions.len(),
        can_deal(m, order),
    ensures
        dealt(m, order).len() > 0,
        dealt(m, order).no_duplicates(),
        forall|i: int|
            0 <= i < dealt(m, order).len() ==> (#[trigger] dealt(m, order)[i]) < m.questions.len(),
        m.deck.len() == 0 ==> is_shuffle(dealt(m, order), m.questions.len()),
{
    let deck = dealt(m, order);
    if m.deck.len() == 0 {
        let last = order.len() - 1;
        assert forall|i: int, j: int| 0 <= i < j < deck.len() implies deck[i] != deck[j] by {
            assert(order[0] != order[last] || last == 0);
        }
    }
}

/// Opening a question leaves a valid game.
pub proof fn started_is_valid(m: GameModel, now: u64, order: Seq<usize>)
    requires
        can_start(m, now, order),
    ensures
        is_valid(started(m, now, order)),
{
    let s = started(m, now, order);
    dealt_is_sound(m, order);
    let deck = dealt(m, order);
    assert(s.deck.no_duplicates()) by {
        assert forall|i: int, j: int| 0 <= i < j < s.deck.len() implies s.deck[i] != s.deck[j] by {
            assert(deck[i] != deck[j]);
        }
    }
    assert forall|i: int| 0 <= i < s.deck.len() implies (#[trigger] s.deck[i])
        < s.questions.len() by {
        assert(deck[i] < m.questions.len());
    }
    assert(deck[deck.len() - 1] < m.questions.len());
    same_people(m.players, s.players);
    assert forall|i: int| 0 <= i < s.players.len() implies is_sound(s, #[trigger] s.players[i]) by {
        assert(m.players[i].id < m.next_id);
    }
    assert forall|t: Seq<char>| #[trigger] s.tokens.contains_key(t) implies knows(
        s.players,
        s.tokens[t],
    ) && player(s.players, s.tokens[t]).token == t by {
        assert(m.tokens.contains_key(t));
    }
}

/// The reveal leaves a valid game, and nobody's points overflow.
pub proof fn revealed_is_valid(m: GameModel, now: u64)
    requires
        is_valid(m),
        m.phase is Question,
    ensures
        is_valid(revealed(m, now)),
        forall|i: int|
            0 <= i < m.players.len() ==> (#[trigger] m.players[i]).score + BASE_POINTS
                + SPEED_POINTS <= u64::MAX,
{
    let r = revealed(m, now);
    let started = m.phase->started;
    let ends = m.phase->Question_ends;
    let correct = m.questions[m.question as int].correct;
    assert forall|i: int| 0 <= i < m.players.len() implies (#[trigger] m.players[i]).score
        + BASE_POINTS + SPEED_POINTS <= u64::MAX by {
        assert(is_sound(m, m.players[i]));
    }
    same_people(m.players, r.players);
    assert forall|i: int| 0 <= i < r.players.len() implies is_sound(r, #[trigger] r.players[i]) by {
        let p = m.players[i];
        assert(is_sound(m, p));
        if picked(p, correct as int) {
            worth_bounds(started, ends, p.answer->0.at);
        }
    }
    assert forall|t: Seq<char>| #[trigger] r.tokens.contains_key(t) implies knows(
        r.players,
        r.tokens[t],
    ) && player(r.players, r.tokens[t]).token == t by {
        assert(m.tokens.contains_key(t));
    }
}

/// Showing the leaderboard leaves a valid game.
pub proof fn ranked_is_valid(m: GameModel, now: u64)
    requires
        is_valid(m),
        m.phase is Reveal,
    ensures
        is_valid(ranked(m, now)),
{
    let r = ranked(m, now);
    assert forall|i: int| 0 <= i < r.players.len() implies is_sound(r, #[trigger] r.players[i]) by {
        assert(is_sound(m, m.players[i]));
    }
    assert forall|t: Seq<char>| #[trigger] r.tokens.contains_key(t) implies knows(
        r.players,
        r.tokens[t],
    ) && player(r.players, r.tokens[t]).token == t by {
        assert(m.tokens.contains_key(t));
    }
}

/// Whoever is left of a list was in it, and the others still come in order.
pub proof fn filtered_people(players: Seq<PlayerModel>, keep: spec_fn(PlayerModel) -> bool)
    requires
        ids_increase(players),
        names_differ(players),
    ensures
        ids_increase(players.filter(keep)),
        names_differ(players.filter(keep)),
        players.filter(keep).len() <= players.len(),
        forall|i: int|
            0 <= i < players.filter(keep).len() ==> players.contains(
                #[trigger] players.filter(keep)[i],
            ) && keep(players.filter(keep)[i]),
        forall|i: int|
            0 <= i < players.len() && keep(#[trigger] players[i]) ==> players.filter(keep).contains(
                players[i],
            ),
    decreases players.len(),
{
    reveal(Seq::filter);
    let kept = players.filter(keep);
    if players.len() > 0 {
        let rest = players.drop_last();
        let last = players.last();
        assert forall|i: int, j: int| 0 <= i < j < rest.len() implies (#[trigger] rest[i]).id < (
        #[trigger] rest[j]).id && rest[i].name != rest[j].name by {
            assert(players[i].id < players[j].id);
        }
        filtered_people(rest, keep);
        let some = rest.filter(keep);
        assert forall|i: int| 0 <= i < some.len() implies players.contains(#[trigger] some[i])
            && some[i].id < last.id && some[i].name != last.name by {
            let k = choose|k: int| 0 <= k < rest.len() && rest[k] == some[i];
            assert(players[k] == some[i]);
            assert(players[players.len() - 1] == last);
        }
        assert forall|i: int| 0 <= i < kept.len() implies players.contains(#[trigger] kept[i])
            && keep(kept[i]) by {
            if i < some.len() {
                assert(kept[i] == some[i]);
            } else {
                assert(players[players.len() - 1] == kept[i]);
            }
        }
        assert forall|i: int| 0 <= i < players.len() && keep(#[trigger] players[i]) implies
            kept.contains(players[i]) by {
            if i < rest.len() {
                assert(rest[i] == players[i]);
                let k = choose|k: int| 0 <= k < some.len() && some[k] == players[i];
                assert(kept[k] == players[i]);
            } else {
                assert(kept[kept.len() - 1] == players[i]);
            }
        }
        assert forall|i: int, j: int| 0 <= i < j < kept.len() implies (#[trigger] kept[i]).id < (
        #[trigger] kept[j]).id && kept[i].name != kept[j].name by {
            assert(kept[i] == some[i]);
            if j < some.len() {
                assert(kept[j] == some[j]);
            } else {
                assert(kept[j] == last);
            }
        }
    }
}

/// After the leaderboard the next round can start.
pub proof fn swept_can_start(m: GameModel, now: u64, order: Seq<usize>)
    requires
        is_valid(m),
        can_deal(m, order),
        start_fits(m, now),
    ensures
        can_start(swept(m, now), now, order),
{
    let keep = |p: PlayerModel| is_kept(p, now);
    let s = swept(m, now);
    let kept = m.players.filter(keep);
    filtered_people(m.players, keep);
    same_people(kept, s.players);
    assert forall|i: int| 0 <= i < s.players.len() implies (#[trigger] s.players[i]).id < s.next_id
        && s.players[i].score <= (BASE_POINTS + SPEED_POINTS) * s.number by {
        let k = choose|k: int| 0 <= k < m.players.len() && m.players[k] == kept[i];
        assert(is_sound(m, m.players[k]));
    }
    assert forall|t: Seq<char>| #[trigger] s.tokens.contains_key(t) implies knows(
        s.players,
        s.tokens[t],
    ) && player(s.players, s.tokens[t]).token == t by {
        assert(m.tokens.contains_key(t));
        let k = player_place(m.players, m.tokens[t]);
        assert(is_kept(m.players[k], now)) by {
            if !is_kept(m.players[k], now) {
                assert(forgotten_tokens(m.players, now).contains(t));
            }
        }
        assert(keep(m.players[k]));
        assert(kept.contains(m.players[k]));
        let i = choose|i: int| 0 <= i < kept.len() && kept[i] == m.players[k];
        assert(s.players[i].id == m.players[k].id);
        player_at(s.players, i);
    }
}

/// Someone who joins under a free name leaves a valid game, in which they
/// have the next number.
pub proof fn joined_is_valid(m: GameModel, token: Seq<char>, name: Seq<char>, now: u64)
    requires
        is_valid(m),
        m.players.len() < MAX_PLAYERS,
        m.next_id < u64::MAX,
        is_free_name(m.players, name),
    ensures
        is_valid(joined(m, token, name, now)),
        player(joined(m, token, name, now).players, m.next_id) == joined(
            m,
            token,
            name,
            now,
        ).players.last(),
{
    let j = joined(m, token, name, now);
    let n = m.players.len() as int;
    assert forall|a: int, b: int| 0 <= a < b < j.players.len() implies (#[trigger] j.players[a]).id
        < (#[trigger] j.players[b]).id && j.players[a].name != j.players[b].name by {
        assert(is_sound(m, m.players[a]));
        if b < n {
            assert(m.players[a].id < m.players[b].id);
        }
    }
    assert forall|i: int| 0 <= i < j.players.len() implies is_sound(j, #[trigger] j.players[i]) by {
        if i < n {
            assert(is_sound(m, m.players[i]));
        }
    }
    player_at(j.players, n);
    assert forall|t: Seq<char>| #[trigger] j.tokens.contains_key(t) implies knows(
        j.players,
        j.tokens[t],
    ) && player(j.players, j.tokens[t]).token == t by {
        if t != token {
            assert(m.tokens.contains_key(t));
            let k = player_place(m.players, m.tokens[t]);
            assert(j.players[k] == m.players[k]);
            player_at(j.players, k);
        }
    }
}

/// An event about one player that leaves who they are and what they scored.
pub proof fn with_player_is_valid(
    m: GameModel,
    id: PlayerId,
    f: spec_fn(PlayerModel) -> PlayerModel,
)
    requires
        is_valid(m),
        forall|p: PlayerModel|
            is_sound(m, p) ==> is_sound(m, #[trigger] f(p)) && f(p).id == p.id && f(p).name
                == p.name && f(p).token == p.token,
    ensures
        is_valid(GameModel { players: with_player(m.players, id, f), ..m }),
{
    let w = GameModel { players: with_player(m.players, id, f), ..m };
    assert forall|i: int| 0 <= i < w.players.len() implies is_sound(w, #[trigger] w.players[i])
        && w.players[i].id == m.players[i].id && w.players[i].name == m.players[i].name
        && w.players[i].token == m.players[i].token by {
        let p = m.players[i];
        assert(is_sound(m, p));
        assert(is_sound(m, f(p)));
    }
    same_people(m.players, w.players);
    assert forall|t: Seq<char>| #[trigger] w.tokens.contains_key(t) implies knows(
        w.players,
        w.tokens[t],
    ) && player(w.players, w.tokens[t]).token == t by {
        assert(m.tokens.contains_key(t));
    }
}

/// Changing one player changes that player and leaves the others as they are.
pub proof fn with_player_changes_one(
    players: Seq<PlayerModel>,
    id: PlayerId,
    f: spec_fn(PlayerModel) -> PlayerModel,
)
    requires
        ids_increase(players),
        forall|p: PlayerModel| (#[trigger] f(p)).id == p.id,
    ensures
        ids_increase(with_player(players, id, f)),
        forall|other: PlayerId|
            knows(with_player(players, id, f), other) == #[trigger] knows(players, other),
        forall|other: PlayerId| #[trigger]
            knows(players, other) ==> player(with_player(players, id, f), other) == (if other
                == id {
                f(player(players, other))
            } else {
                player(players, other)
            }),
{
    let changed = with_player(players, id, f);
    assert forall|i: int, j: int| 0 <= i < j < changed.len() implies (#[trigger] changed[i]).id < (
    #[trigger] changed[j]).id by {
        assert(players[i].id < players[j].id);
        assert(f(players[i]).id == players[i].id);
        assert(f(players[j]).id == players[j].id);
    }
    assert forall|other: PlayerId| knows(changed, other) == #[trigger] knows(players, other) by {
        if knows(players, other) {
            let i = player_place(players, other);
            assert(f(players[i]).id == players[i].id);
            assert(changed[i].id == other);
        }
        if knows(changed, other) {
            let i = player_place(changed, other);
            assert(f(players[i]).id == players[i].id);
            assert(players[i].id == other);
        }
    }
    assert forall|other: PlayerId| #[trigger] knows(players, other) implies player(changed, other)
        == (if other == id {
        f(player(players, other))
    } else {
        player(players, other)
    }) by {
        let i = player_place(players, other);
        assert(f(players[i]).id == players[i].id);
        player_at(changed, i);
    }
}

/// Whether a player picked one of the first `n` choices.
pub open spec fn picked_below(p: PlayerModel, n: int) -> bool {
    p.answer is Some && p.answer->0.choice < n
}

proof fn votes_below(players: Seq<PlayerModel>, n: int)
    ensures
        count(players, |p: PlayerModel| picked_below(p, n + 1)) == count(
            players,
            |p: PlayerModel| picked_below(p, n),
        ) + votes(players, n),
    decreases players.len(),
{
    if players.len() > 0 {
        votes_below(players.drop_last(), n);
    }
}

proof fn tally_of_first(m: GameModel, n: int)
    requires
        m.players.len() <= MAX_PLAYERS,
        0 <= n <= tally_of(m).len(),
    ensures
        total(tally_of(m).take(n)) == count(m.players, |p: PlayerModel| picked_below(p, n)),
    decreases n,
{
    if n == 0 {
        count_none(m.players, |p: PlayerModel| picked_below(p, 0));
    } else {
        tally_of_first(m, n - 1);
        votes_below(m.players, n - 1);
        count_bound(m.players, |p: PlayerModel| picked(p, n - 1));
        assert(tally_of(m).take(n).drop_last() =~= tally_of(m).take(n - 1));
    }
}

/// The votes for all choices together are as many as the players who
/// answered.
pub proof fn tally_adds_up(m: GameModel)
    requires
        is_valid(m),
    ensures
        total(tally_of(m)) == answered(m.players),
{
    let n = tally_of(m).len() as int;
    tally_of_first(m, n);
    assert(tally_of(m).take(n) =~= tally_of(m));
    assert forall|i: int| 0 <= i < m.players.len() implies picked_below(
        #[trigger] m.players[i],
        n,
    ) == has_answered(m.players[i]) by {
        assert(is_sound(m, m.players[i]));
    }
    count_same(
        m.players,
        m.players,
        |p: PlayerModel| picked_below(p, n),
        |p: PlayerModel| has_answered(p),
    );
}

} // verus!
