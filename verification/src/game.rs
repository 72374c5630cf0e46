//! The authoritative game. One clock for everyone: the server decides when a
//! question opens and closes, accepts answers while it is open, and only then
//! reveals which choice was right.
//!
//! Time is passed in explicitly (milliseconds since the Unix epoch) so the
//! whole state machine runs in tests without sleeping. Clients get absolute
//! deadlines plus the server's `now` and correct for their own clock skew.

use crate::count::{
    count, count_bound, count_none, count_permutation, count_prefix, count_push, count_same,
    count_some, count_update,
};
use crate::names::{are_draws, generate, is_named, Taken};
use crate::quiz::{question_models, texts, Question, QuestionModel};
use crate::random::{random_number, shuffle};
use crate::sort::{keys_of, listed, listed_is_total, order, order_is_sorted, Rank};
use crate::state::{
    advance_fits, advanced, after, after_answer, ahead, answer_result, answered, can_deal,
    connected, deadline, dealt, disconnected, forgotten_tokens, has_answered, has_scored,
    ids_increase, is_due, is_free_name, is_kept, is_known, is_new, is_online, is_shuffle, is_sound,
    is_valid, joined, knows, me_shown, names_in_use, online, paid, phase_shown, pick_of, picked,
    player, rank, ranked, reset, revealed, scored, shown, standing, standing_key, standing_order,
    started, swept, tally_of, ticked, token_of, top, unanswered, votes, welcome, welcomed,
    with_pick, with_player, worth, GameModel, MeModel, PhaseViewModel, PlayerModel, SettingsModel,
    StandingModel, ViewModel, FORGET_AFTER_MS, LEADERBOARD_SIZE, MAX_PLAYERS, TOKEN_DIGITS,
};
use crate::text::{chars_of, push_hex_padded};
use crate::upkeep::{
    can_start, dealt_is_sound, filtered_people, joined_is_valid, player_at, ranked_is_valid,
    revealed_is_valid, started_is_valid, swept_can_start, with_player_is_valid, worth_bounds,
};
use vstd::hash_map::StringHashMap;
use vstd::prelude::*;
use vstd::seq_lib::{group_to_multiset_ensures, lemma_sorted_unique};
use vstd::view::View as _;

pub use crate::state::{Answer, AnswerError, Phase, PlayerId, BASE_POINTS, SPEED_POINTS};

verus! {

/// Timings and title; server configuration rather than quiz content.
#[derive(Debug, Clone)]
pub struct Settings {
    /// Shown in the page header and the browser tab.
    pub title: String,
    /// Time to answer, the same for every question.
    pub question_seconds: u64,
    /// How long the correct answer stays on screen before the next question.
    pub reveal_seconds: u64,
    /// Questions per round; after the last one the leaderboard is shown and
    /// points reset.
    pub round_questions: u32,
    /// How long the leaderboard is shown before the next round starts.
    pub leaderboard_seconds: u64,
}

impl Settings {
    pub open spec fn model(&self) -> SettingsModel {
        SettingsModel {
            title: self.title@,
            question_seconds: self.question_seconds,
            reveal_seconds: self.reveal_seconds,
            round_questions: self.round_questions,
            leaderboard_seconds: self.leaderboard_seconds,
        }
    }
}

impl Default for Settings {
    fn default() -> (r: Self)
        ensures
            r.title@ == "NixCon Quiz"@,
            r.question_seconds == 20,
            r.reveal_seconds == 8,
            r.round_questions == 10,
            r.leaderboard_seconds == 30,
    {
        Settings {
            title: "NixCon Quiz".to_owned(),
            question_seconds: 20,
            reveal_seconds: 8,
            round_questions: 10,
            leaderboard_seconds: 30,
        }
    }
}

struct Player {
    id: PlayerId,
    token: String,
    name: String,
    score: u64,
    connections: u32,
    last_seen: u64,
    /// The pick for the current question.
    answer: Option<Answer>,
    /// Points earned on the last revealed question.
    gained: Option<u64>,
    /// Place on the leaderboard, for those who have points.
    rank: Option<usize>,
}

impl Player {
    spec fn model(&self) -> PlayerModel {
        PlayerModel {
            id: self.id,
            token: self.token@,
            name: self.name@,
            score: self.score,
            connections: self.connections,
            last_seen: self.last_seen,
            answer: self.answer,
            gained: self.gained,
        }
    }
}

spec fn models(players: Seq<Player>) -> Seq<PlayerModel> {
    players.map_values(|p: Player| p.model())
}

pub struct Standing {
    pub id: PlayerId,
    pub rank: usize,
    pub name: String,
    pub score: u64,
}

impl Standing {
    pub open spec fn model(&self) -> StandingModel {
        StandingModel { id: self.id, rank: self.rank as nat, name: self.name@, score: self.score }
    }
}

pub open spec fn standing_models(top: Seq<Standing>) -> Seq<StandingModel> {
    top.map_values(|s: Standing| s.model())
}

pub struct Game {
    settings: Settings,
    questions: Vec<Question>,
    /// Question indices still to be asked before the questions repeat.
    deck: Vec<usize>,
    phase: Phase,
    /// Votes for each choice of the last revealed question.
    counts: Vec<u32>,
    /// Identifies the current question across rounds; answers must quote it.
    seq: u64,
    question: usize,
    /// Position of the current question within the round, from 1.
    number: u32,
    /// In the order in which they joined, so by id.
    players: Vec<Player>,
    /// How many of them answered the current question.
    answered: usize,
    tokens: StringHashMap<PlayerId>,
    names: Taken,
    next_id: PlayerId,
    online: usize,
    top: Vec<Standing>,
    /// How many players have points.
    scored: usize,
}

/// The game before its first question.
pub open spec fn opened(
    settings: SettingsModel,
    questions: Seq<QuestionModel>,
    now: u64,
) -> GameModel {
    GameModel {
        settings,
        questions,
        deck: Seq::empty(),
        phase: Phase::Leaderboard { ends: now },
        seq: 0,
        question: 0,
        number: 0,
        players: Seq::empty(),
        tokens: Map::empty(),
        next_id: 1,
    }
}

proof fn names_are_finite(players: Seq<PlayerModel>)
    ensures
        names_in_use(players).finite(),
        names_in_use(players).len() <= players.len(),
{
    let names = players.map_values(|p: PlayerModel| p.name);
    assert(names_in_use(players) =~= names.to_set()) by {
        assert forall|n: Seq<char>| names_in_use(players).contains(n) implies names.contains(n) by {
            let i = choose|i: int| 0 <= i < players.len() && (#[trigger] players[i]).name == n;
            assert(names[i] == n);
        }
        assert forall|n: Seq<char>| names.contains(n) implies names_in_use(players).contains(n) by {
            let i = choose|i: int| 0 <= i < names.len() && names[i] == n;
            assert(players[i].name == n);
        }
    }
    names.lemma_cardinality_of_set();
}

/// What a right answer given at `at` is worth, for a question open from
/// `started` to `ends`.
pub fn points(started: u64, ends: u64, at: u64) -> (r: u64)
    requires
        started <= ends,
    ensures
        r == worth(started, ends, at),
        BASE_POINTS <= r <= BASE_POINTS + SPEED_POINTS,
{
    proof {
        worth_bounds(started, ends, at);
    }
    let window: u64 = if ends - started > 1 {
        ends - started
    } else {
        1
    };
    let left: u64 = if at >= ends {
        0
    } else if ends - at > window {
        window
    } else {
        ends - at
    };
    let bonus: u128 = SPEED_POINTS as u128 * left as u128 / window as u128;
    assert(0 <= SPEED_POINTS * left / window as int <= SPEED_POINTS) by (nonlinear_arith)
        requires
            0 <= left <= window,
            window >= 1,
            SPEED_POINTS == 500,
    ;
    BASE_POINTS + bonus as u64
}

impl Game {
    /// What the game is.
    pub closed spec fn model(&self) -> GameModel {
        GameModel {
            settings: self.settings.model(),
            questions: question_models(self.questions@),
            deck: self.deck@,
            phase: self.phase,
            seq: self.seq,
            question: self.question,
            number: self.number,
            players: models(self.players@),
            tokens: self.tokens@,
            next_id: self.next_id,
        }
    }

    /// The leaderboard is up to date.
    spec fn is_ranked(&self) -> bool {
        let players = models(self.players@);
        &&& forall|i: int|
            0 <= i < self.players@.len() ==> match (#[trigger] self.players@[i]).rank {
                Some(r) => rank(players, players[i]) == Some(r as nat),
                None => rank(players, players[i]) is None,
            }
        &&& standing_models(self.top@) == top(players)
        &&& self.scored == scored(players)
    }

    /// What is counted and looked up is up to date.
    spec fn is_counted(&self) -> bool {
        let players = models(self.players@);
        &&& self.names@ == names_in_use(players)
        &&& self.online == online(players)
        &&& self.answered == answered(players)
    }

    /// What holds of every game.
    pub closed spec fn wf(&self) -> bool {
        &&& is_valid(self.model())
        &&& self.is_counted()
        &&& self.is_ranked()
        &&& self.phase is Reveal ==> self.counts@ == tally_of(self.model())
    }

    /// A game that is well formed is valid.
    pub proof fn wf_is_valid(&self)
        requires
            self.wf(),
        ensures
            is_valid(self.model()),
    {
    }

    /// When the current phase ends.
    pub fn deadline(&self) -> (r: u64)
        ensures
            r == deadline(self.model().phase),
    {
        match self.phase {
            Phase::Question { ends, .. } => ends,
            Phase::Reveal { ends } => ends,
            Phase::Leaderboard { ends } => ends,
        }
    }

    /// Where the player is in the list.
    fn find(&self, id: PlayerId) -> (r: Option<usize>)
        requires
            ids_increase(models(self.players@)),
        ensures
            match r {
                Some(i) => i < self.players@.len() && self.players@[i as int].id == id && knows(
                    models(self.players@),
                    id,
                ) && player(models(self.players@), id) == self.players@[i as int].model(),
                None => !knows(models(self.players@), id),
            },
    {
        let ghost players = models(self.players@);
        let mut low: usize = 0;
        let mut high: usize = self.players.len();
        while low < high
            invariant
                players == models(self.players@),
                ids_increase(players),
                0 <= low <= high <= players.len(),
                players.len() == self.players@.len(),
                forall|i: int| 0 <= i < low ==> (#[trigger] players[i]).id < id,
                forall|i: int| high <= i < players.len() ==> (#[trigger] players[i]).id > id,
            decreases high - low,
        {
            let mid: usize = low + (high - low) / 2;
            let at = self.players[mid].id;
            assert(players[mid as int].id == at);
            if at == id {
                proof {
                    player_at(players, mid as int);
                }
                return Some(mid);
            }
            if at < id {
                low = mid + 1;
            } else {
                high = mid;
            }
        }
        None
    }

    /// Everyone's place, and the leaderboard.
    fn rerank(&mut self)
        requires
            old(self).players@.len() <= MAX_PLAYERS,
        ensures
            final(self).is_ranked(),
            final(self).model() == old(self).model(),
            models(final(self).players@) == models(old(self).players@),
            final(self).names == old(self).names,
            final(self).online == old(self).online,
            final(self).answered == old(self).answered,
            final(self).counts == old(self).counts,
    {
        let ghost players = models(self.players@);
        let ghost keys = players.map_values(|p: PlayerModel| standing_key(p));
        let n = self.players.len();
        let mut ranks: Vec<Rank> = Vec::new();
        let mut i: usize = 0;
        while i < n
            invariant
                n == self.players@.len(),
                players == models(self.players@),
                i <= n,
                ranks@.len() == i,
                forall|j: int|
                    0 <= j < i ==> (#[trigger] ranks@[j]).key() == standing_key(players[j]),
            decreases n - i,
        {
            let text = chars_of(self.players[i].name.as_str());
            ranks.push(Rank { first: u64::MAX - self.players[i].score, text, second: 0 });
            i += 1;
        }
        let sorted = order(&ranks);
        let ghost by_place = standing_order(players);
        let ghost listing = by_place.map_values(|i: int| players[i]);
        proof {
            assert(keys_of(ranks@) =~= keys);
            order_is_sorted(keys);
            assert(sorted@.map_values(|i: usize| i as int).len() == sorted@.len());
            assert forall|k: int| 0 <= k < sorted@.len() implies (#[trigger] sorted@[k]) as int
                == by_place[k] by {
                assert(sorted@.map_values(|i: usize| i as int)[k] == by_place[k]);
            }
            listing_descends(players);
        }
        self.top.clear();
        self.scored = 0;
        let mut place: usize = 0;
        let mut k: usize = 0;
        assert(standing_models(self.top@) =~= Seq::empty());
        while k < n
            invariant
                n == self.players@.len(),
                n <= MAX_PLAYERS,
                k <= n,
                models(self.players@) == players,
                sorted@.len() == n,
                by_place == standing_order(players),
                by_place.len() == n,
                by_place.no_duplicates(),
                listing == by_place.map_values(|i: int| players[i]),
                forall|j: int| 0 <= j < n ==> (#[trigger] sorted@[j]) < n,
                forall|j: int| 0 <= j < n ==> (#[trigger] sorted@[j]) as int == by_place[j],
                forall|a: int, b: int|
                    0 <= a < b < n ==> (#[trigger] listing[a]).score >= (#[trigger] listing[b]).score,
                forall|s: u64|
                    #[trigger] ahead(players, s) == count(
                        listing,
                        |p: PlayerModel| p.score > s,
                    ),
                self.scored <= k,
                forall|j: int| 0 <= j < k ==> (has_scored(#[trigger] listing[j]) <==> j < self.scored),
                place <= self.scored,
                self.scored > 0 ==> place >= 1,
                self.scored > 0 ==> listing[place - 1].score == listing[self.scored - 1].score,
                place >= 2 ==> listing[place - 2].score > listing[place - 1].score,
                self.top@.len() == (if self.scored < LEADERBOARD_SIZE {
                    self.scored
                } else {
                    LEADERBOARD_SIZE
                }),
                forall|j: int|
                    0 <= j < self.top@.len() ==> (#[trigger] self.top@[j]).model() == standing(
                        players,
                        listing[j],
                    ),
                forall|j: int|
                    0 <= j < k ==> match self.players@[#[trigger] by_place[j]].rank {
                        Some(r) => rank(players, players[by_place[j]]) == Some(r as nat),
                        None => rank(players, players[by_place[j]]) is None,
                    },
                *self == (Game {
                    players: self.players,
                    top: self.top,
                    scored: self.scored,
                    ..*old(self)
                }),
            decreases n - k,
        {
            let i = sorted[k];
            let score = self.players[i].score;
            let ghost p = players[i as int];
            assert(by_place[k as int] == i);
            assert(listing[k as int] == p);
            assert(p == self.players@[i as int].model());
            let ghost before = self.players@;
            if score > 0 {
                proof {
                    if k > 0 {
                        assert(listing[k - 1].score >= listing[k as int].score);
                        assert(has_scored(listing[k - 1]));
                    }
                    assert(self.scored == k);
                }
                if k == 0 || self.players[sorted[k - 1]].score != score {
                    // Competition ranking: ties share a place, the next one
                    // skips.
                    place = k + 1;
                    assert(k > 0 ==> listing[k - 1] == players[sorted@[k - 1] as int]);
                } else {
                    assert(listing[k - 1] == players[sorted@[k - 1] as int]);
                }
                proof {
                    let higher = |q: PlayerModel| q.score > score;
                    assert forall|j: int| 0 <= j < listing.len() implies (higher(
                        #[trigger] listing[j],
                    ) <==> j < place - 1) by {
                        if j < place - 1 {
                            if j < place - 2 {
                                assert(listing[j].score >= listing[place - 2].score);
                            }
                        } else if j > place - 1 {
                            assert(listing[place - 1].score >= listing[j].score);
                        }
                    }
                    count_prefix(listing, place - 1, higher);
                    assert(ahead(players, score) == count(listing, higher));
                }
                self.players[i].rank = Some(place);
                self.scored = self.scored + 1;
                if k < LEADERBOARD_SIZE {
                    let name = self.players[i].name.clone();
                    let id = self.players[i].id;
                    self.top.push(Standing { id, rank: place, name, score });
                }
            } else {
                self.players[i].rank = None;
                assert(!has_scored(p));
            }
            proof {
                assert(self.players@.len() == before.len());
                assert forall|j: int| 0 <= j < n implies self.players@[j].model()
                    == before[j].model() by {}
                assert(models(self.players@) =~= players);
                assert forall|j: int| 0 <= j < k implies self.players@[#[trigger] by_place[j]]
                    == before[by_place[j]] by {
                    assert(by_place[j] != by_place[k as int]);
                    assert(sorted@[j] as int == by_place[j]);
                }
                assert(rank(players, p) == (if score > 0 {
                    Some(place as nat)
                } else {
                    None
                }));
            }
            k += 1;
        }
        proof {
            assert forall|i: int| 0 <= i < self.players@.len() implies match (
            #[trigger] self.players@[i]).rank {
                Some(r) => rank(players, players[i]) == Some(r as nat),
                None => rank(players, players[i]) is None,
            } by {
                assert(by_place.contains(i));
                let j = choose|j: int| 0 <= j < by_place.len() && by_place[j] == i;
                assert(by_place[j] == i);
            }
            let has = |p: PlayerModel| has_scored(p);
            count_prefix(listing, self.scored as int, has);
            count_in_order(players, has);
            assert(standing_models(self.top@) =~= top(players));
        }
    }
}

/// Counting players in the order of the leaderboard.
proof fn count_in_order(players: Seq<PlayerModel>, p: spec_fn(PlayerModel) -> bool)
    ensures
        count(players, p) == count(
            standing_order(players).map_values(|i: int| players[i]),
            p,
        ),
{
    let keys = players.map_values(|p: PlayerModel| standing_key(p));
    order_is_sorted(keys);
    let all = Seq::new(players.len(), |i: int| i);
    let places = standing_order(players);
    let q = |i: int| p(players[i]);
    count_same(players, all, p, q);
    count_permutation(all, places, q);
    count_same(places, places.map_values(|i: int| players[i]), q, p);
}

/// The leaderboard lists scores from high to low.
proof fn listing_descends(players: Seq<PlayerModel>)
    ensures
        ({
            let listing = standing_order(players).map_values(|i: int| players[i]);
            &&& forall|a: int, b: int|
                0 <= a < b < listing.len() ==> (#[trigger] listing[a]).score >= (
                #[trigger] listing[b]).score
            &&& forall|s: u64|
                #[trigger] ahead(players, s) == count(listing, |p: PlayerModel| p.score > s)
        }),
{
    let keys = players.map_values(|p: PlayerModel| standing_key(p));
    order_is_sorted(keys);
    let places = standing_order(players);
    let listing = places.map_values(|i: int| players[i]);
    assert forall|a: int, b: int| 0 <= a < b < listing.len() implies (#[trigger] listing[a]).score
        >= (#[trigger] listing[b]).score by {
        assert(listed(keys, places[a], places[b]));
    }
    assert forall|s: u64| #[trigger] ahead(players, s) == count(
        listing,
        |p: PlayerModel| p.score > s,
    ) by {
        count_in_order(players, |p: PlayerModel| p.score > s);
    }
}

impl Game {
    /// Opens the next question. The deck is drawn from the back; `order` is a
    /// fresh one for when it has run out.
    fn start_question(&mut self, now: u64, order: Vec<usize>)
        requires
            can_start(old(self).model(), now, order@),
            old(self).is_counted(),
            old(self).is_ranked(),
        ensures
            final(self).wf(),
            final(self).model() == started(old(self).model(), now, order@),
    {
        let ghost before = self.model();
        proof {
            dealt_is_sound(before, order@);
            started_is_valid(before, now, order@);
        }
        if self.deck.len() == 0 {
            let mut order = order;
            let n = order.len();
            // Don't ask the same thing twice in a row across a reshuffle.
            if n > 1 && self.seq > 0 && order[n - 1] == self.question {
                let first = order[0];
                let last = order[n - 1];
                order.set(0, last);
                order.set(n - 1, first);
            }
            self.deck = order;
        }
        assert(self.deck@ == dealt(before, order@));
        self.question = self.deck.pop().unwrap();
        assert(self.deck@ =~= dealt(before, order@).drop_last());
        self.seq = self.seq + 1;
        self.number = self.number + 1;
        let n = self.players.len();
        let ghost players = models(self.players@);
        let ghost list = self.players@;
        let mut i: usize = 0;
        while i < n
            invariant
                n == self.players@.len(),
                n == list.len(),
                i <= n,
                players == models(list),
                forall|j: int|
                    0 <= j < i ==> (#[trigger] self.players@[j]).model() == unanswered(players[j])
                        && self.players@[j].rank == list[j].rank,
                forall|j: int| i <= j < n ==> #[trigger] self.players@[j] == list[j],
                *self == (Game {
                    players: self.players,
                    seq: self.seq,
                    number: self.number,
                    deck: self.deck,
                    question: self.question,
                    ..*old(self)
                }),
                self.seq == old(self).seq + 1,
                self.number == old(self).number + 1,
                self.deck@ == dealt(before, order@).drop_last(),
                self.question == dealt(before, order@).last(),
            decreases n - i,
        {
            assert(self.players@[i as int] == list[i as int]);
            self.players[i].answer = None;
            self.players[i].gained = None;
            i += 1;
        }
        self.answered = 0;
        self.phase = Phase::Question {
            started: now,
            ends: now + self.settings.question_seconds * 1000,
        };
        proof {
            let now_playing = models(self.players@);
            assert(now_playing =~= players.map_values(|p: PlayerModel| unanswered(p)));
            assert(self.model() =~= started(before, now, order@));
            same_scores(players, now_playing);
            count_same(
                players,
                now_playing,
                |p: PlayerModel| is_online(p),
                |p: PlayerModel| is_online(p),
            );
            count_none(now_playing, |p: PlayerModel| has_answered(p));
            same_names(players, now_playing);
        }
    }

    /// Closes the question: pays the right answers and shows the votes.
    fn reveal_answer(&mut self, now: u64)
        requires
            old(self).wf(),
            old(self).model().phase is Question,
            after(now, old(self).model().settings.reveal_seconds) <= u64::MAX,
        ensures
            final(self).wf(),
            final(self).model() == revealed(old(self).model(), now),
    {
        let ghost before = self.model();
        proof {
            revealed_is_valid(before, now);
        }
        let (started, ends): (u64, u64) = match self.phase {
            Phase::Question { started, ends } => (started, ends),
            _ => (0, 0),
        };
        let correct = self.questions[self.question].correct;
        let choices = self.questions[self.question].choices.len();
        assert(before.questions[before.question as int].choices.len() == choices);
        let mut counts: Vec<u32> = Vec::new();
        while counts.len() < choices
            invariant
                counts@.len() <= choices,
                forall|c: int| 0 <= c < counts@.len() ==> #[trigger] counts@[c] == 0,
            decreases choices - counts@.len(),
        {
            counts.push(0);
        }
        let n = self.players.len();
        let ghost players = models(self.players@);
        let ghost list = self.players@;
        let mut i: usize = 0;
        assert(players.take(0) =~= Seq::empty());
        while i < n
            invariant
                n == self.players@.len(),
                n == list.len(),
                n <= MAX_PLAYERS,
                i <= n,
                players == models(list),
                before.players == players,
                is_valid(before),
                before.phase == (Phase::Question { started, ends }),
                before.questions[before.question as int].correct == correct,
                before.questions[before.question as int].choices.len() == choices,
                started <= ends,
                counts@.len() == choices,
                forall|c: int|
                    0 <= c < choices ==> (#[trigger] counts@[c]) as nat == votes(
                        players.take(i as int),
                        c,
                    ),
                forall|j: int|
                    0 <= j < n ==> (#[trigger] players[j]).score + BASE_POINTS + SPEED_POINTS
                        <= u64::MAX,
                forall|j: int|
                    0 <= j < i ==> (#[trigger] self.players@[j]).model() == paid(
                        players[j],
                        correct,
                        started,
                        ends,
                    ),
                forall|j: int| i <= j < n ==> #[trigger] self.players@[j] == list[j],
                *self == (Game { players: self.players, ..*old(self) }),
            decreases n - i,
        {
            let ghost p = players[i as int];
            assert(self.players@[i as int] == list[i as int]);
            assert(is_sound(before, p));
            proof {
                assert(players.take(i + 1) =~= players.take(i as int).push(p));
                assert forall|c: int| 0 <= c < choices implies #[trigger] votes(
                    players.take(i + 1),
                    c,
                ) == votes(players.take(i as int), c) + (if picked(p, c) {
                    1nat
                } else {
                    0nat
                }) by {
                    count_push(players.take(i as int), p, |q: PlayerModel| picked(q, c));
                }
                assert forall|c: int| 0 <= c < choices implies #[trigger] votes(
                    players.take(i as int),
                    c,
                ) <= i by {
                    count_bound(players.take(i as int), |q: PlayerModel| picked(q, c));
                }
            }
            if let Some(answer) = self.players[i].answer {
                let c = answer.choice;
                assert(votes(players.take(i as int), c as int) <= i);
                let had = counts[c];
                counts.set(c, had + 1);
                if c == correct {
                    let gain = points(started, ends, answer.at);
                    let score = self.players[i].score;
                    self.players[i].score = score + gain;
                    self.players[i].gained = Some(gain);
                }
            }
            i += 1;
        }
        assert(players.take(n as int) =~= players);
        self.counts = counts;
        self.phase = Phase::Reveal { ends: now + self.settings.reveal_seconds * 1000 };
        let ghost unranked = *self;
        self.rerank();
        proof {
            let now_playing = models(self.players@);
            assert(now_playing =~= players.map_values(
                |p: PlayerModel| paid(p, correct, started, ends),
            ));
            assert(self.model() =~= revealed(before, now));
            count_same(
                players,
                now_playing,
                |p: PlayerModel| is_online(p),
                |p: PlayerModel| is_online(p),
            );
            count_same(
                players,
                now_playing,
                |p: PlayerModel| has_answered(p),
                |p: PlayerModel| has_answered(p),
            );
            same_names(players, now_playing);
            assert forall|c: int| 0 <= c < choices implies votes(players, c) == #[trigger] votes(
                now_playing,
                c,
            ) by {
                count_same(
                    players,
                    now_playing,
                    |p: PlayerModel| picked(p, c),
                    |p: PlayerModel| picked(p, c),
                );
            }
            assert forall|c: int| 0 <= c < choices implies self.counts@[c] == tally_of(
                self.model(),
            )[c] by {
                assert(votes(players, c) == votes(now_playing, c));
            }
            assert(self.counts@ =~= tally_of(self.model()));
        }
    }

    /// Forgets those who left long ago and takes everyone's points away.
    fn sweep(&mut self, now: u64)
        requires
            old(self).wf(),
        ensures
            final(self).is_counted(),
            final(self).is_ranked(),
            final(self).model() == swept(old(self).model(), now),
    {
        let ghost before = self.model();
        let ghost players = models(self.players@);
        let ghost keep = |p: PlayerModel| is_kept(p, now);
        let n = self.players.len();
        let mut kept: Vec<Player> = Vec::new();
        let mut i: usize = 0;
        proof {
            reveal(Seq::filter);
            assert(players.take(0) =~= Seq::empty());
            assert(models(kept@) =~= players.take(0).filter(keep).map_values(
                |p: PlayerModel| reset(p),
            ));
            assert(self.tokens@ =~= before.tokens.remove_keys(
                forgotten_tokens(players.take(0), now),
            ));
        }
        while i < n
            invariant
                n == self.players@.len(),
                i <= n,
                players == models(self.players@),
                names_in_use(players) == old(self).names@,
                crate::state::names_differ(players),
                keep == (|p: PlayerModel| is_kept(p, now)),
                before.tokens == old(self).tokens@,
                models(kept@) == players.take(i as int).filter(keep).map_values(
                    |p: PlayerModel| reset(p),
                ),
                kept@.len() <= i,
                self.tokens@ == before.tokens.remove_keys(
                    forgotten_tokens(players.take(i as int), now),
                ),
                online(models(kept@)) == online(players.take(i as int)),
                answered(models(kept@)) <= i,
                forall|name: Seq<char>| #[trigger]
                    self.names@.contains(name) <==> exists|j: int|
                        0 <= j < n && (#[trigger] players[j]).name == name && (j >= i || keep(
                            players[j],
                        )),
                *self == (Game { tokens: self.tokens, names: self.names, ..*old(self) }),
            decreases n - i,
        {
            let ghost p = players[i as int];
            let ghost so_far = players.take(i as int);
            let ghost list = kept@;
            let ghost tokens = self.tokens@;
            let ghost names = self.names@;
            assert(p == self.players@[i as int].model());
            proof {
                reveal(Seq::filter);
                assert(players.take(i + 1) =~= so_far.push(p));
                assert(so_far.push(p).drop_last() =~= so_far);
                count_push(so_far, p, |q: PlayerModel| is_online(q));
            }
            let connections = self.players[i].connections;
            let last_seen = self.players[i].last_seen;
            let recent = now <= last_seen || now - last_seen < FORGET_AFTER_MS;
            if connections > 0 || recent {
                let player = Player {
                    id: self.players[i].id,
                    token: self.players[i].token.clone(),
                    name: self.players[i].name.clone(),
                    score: 0,
                    connections,
                    last_seen,
                    answer: self.players[i].answer,
                    gained: self.players[i].gained,
                    rank: None,
                };
                kept.push(player);
                proof {
                    assert(models(kept@) =~= models(list).push(reset(p)));
                    assert(so_far.filter(keep).push(p).map_values(|q: PlayerModel| reset(q))
                        =~= so_far.filter(keep).map_values(|q: PlayerModel| reset(q)).push(
                        reset(p),
                    ));
                    count_push(models(list), reset(p), |q: PlayerModel| is_online(q));
                    count_push(models(list), reset(p), |q: PlayerModel| has_answered(q));
                    assert(forgotten_tokens(so_far.push(p), now) =~= forgotten_tokens(
                        so_far,
                        now,
                    )) by {
                        forgotten_push(so_far, p, now);
                    }
                }
            } else {
                self.tokens.remove(self.players[i].token.as_str());
                self.names.remove(self.players[i].name.as_str());
                proof {
                    forgotten_push(so_far, p, now);
                    assert(self.tokens@ =~= before.tokens.remove_keys(
                        forgotten_tokens(so_far.push(p), now),
                    ));
                }
            }
            proof {
                assert forall|name: Seq<char>| #[trigger]
                    self.names@.contains(name) <==> exists|j: int|
                        0 <= j < n && (#[trigger] players[j]).name == name && (j >= i + 1 || keep(
                            players[j],
                        )) by {
                    if names.contains(name) {
                        let j = choose|j: int|
                            0 <= j < n && (#[trigger] players[j]).name == name && (j >= i || keep(
                                players[j],
                            ));
                        if j == i && !keep(p) {
                            assert forall|k: int| 0 <= k < n && k != i implies (
                            #[trigger] players[k]).name != name by {
                                if k < i {
                                    assert(players[k].name != players[i as int].name);
                                } else {
                                    assert(players[i as int].name != players[k].name);
                                }
                            }
                        } else {
                            assert(players[j].name == name);
                            if !keep(p) && name == p.name {
                                if j < i {
                                    assert(players[j].name != players[i as int].name);
                                } else {
                                    assert(players[i as int].name != players[j].name);
                                }
                            }
                        }
                    }
                }
            }
            i += 1;
        }
        assert(players.take(n as int) =~= players);
        proof {
            filtered_people(players, keep);
        }
        self.players = kept;
        self.number = 0;
        let answered = self.count_answered();
        self.answered = answered;
        self.rerank();
        proof {
            let now_playing = models(self.players@);
            assert(self.model() =~= swept(before, now));
            let left = players.filter(keep);
            assert(self.names@ =~= names_in_use(now_playing)) by {
                assert forall|name: Seq<char>| self.names@.contains(name) implies names_in_use(
                    now_playing,
                ).contains(name) by {
                    let j = choose|j: int|
                        0 <= j < n && (#[trigger] players[j]).name == name && (j >= n || keep(
                            players[j],
                        ));
                    assert(left.contains(players[j]));
                    let k = choose|k: int| 0 <= k < left.len() && left[k] == players[j];
                    assert(now_playing[k].name == name);
                }
                assert forall|name: Seq<char>| names_in_use(now_playing).contains(name) implies
                    self.names@.contains(name) by {
                    let k = choose|k: int|
                        0 <= k < now_playing.len() && (#[trigger] now_playing[k]).name == name;
                    assert(players.contains(left[k]));
                    let j = choose|j: int| 0 <= j < players.len() && players[j] == left[k];
                    assert(players[j].name == name);
                }
            }
        }
    }

    /// How many players answered the current question.
    fn count_answered(&self) -> (r: usize)
        ensures
            r == answered(models(self.players@)),
    {
        let ghost players = models(self.players@);
        let mut r: usize = 0;
        let mut i: usize = 0;
        assert(players.take(0) =~= Seq::empty());
        while i < self.players.len()
            invariant
                players == models(self.players@),
                i <= self.players@.len(),
                r == answered(players.take(i as int)),
                r <= i,
            decreases self.players@.len() - i,
        {
            proof {
                assert(players.take(i + 1) =~= players.take(i as int).push(players[i as int]));
                count_push(
                    players.take(i as int),
                    players[i as int],
                    |p: PlayerModel| has_answered(p),
                );
            }
            if self.players[i].answer.is_some() {
                r += 1;
            }
            i += 1;
        }
        assert(players.take(i as int) =~= players);
        r
    }
}

/// One more player may be forgotten.
proof fn forgotten_push(players: Seq<PlayerModel>, p: PlayerModel, now: u64)
    ensures
        forall|t: Seq<char>| #[trigger]
            forgotten_tokens(players.push(p), now).contains(t) <==> (forgotten_tokens(
                players,
                now,
            ).contains(t) || (!is_kept(p, now) && p.token == t)),
{
    let more = players.push(p);
    assert forall|t: Seq<char>| #[trigger]
        forgotten_tokens(more, now).contains(t) <==> (forgotten_tokens(players, now).contains(t)
            || (!is_kept(p, now) && p.token == t)) by {
        if forgotten_tokens(players, now).contains(t) {
            let i = choose|i: int|
                0 <= i < players.len() && !is_kept(players[i], now) && (
                #[trigger] players[i]).token == t;
            assert(more[i].token == t);
        }
        if !is_kept(p, now) && p.token == t {
            assert(more[players.len() as int].token == t);
        }
        if forgotten_tokens(more, now).contains(t) {
            let i = choose|i: int|
                0 <= i < more.len() && !is_kept(more[i], now) && (#[trigger] more[i]).token == t;
            if i < players.len() {
                assert(players[i].token == t);
            }
        }
    }
}

/// The leaderboard depends on who has how many points.
proof fn same_scores(a: Seq<PlayerModel>, b: Seq<PlayerModel>)
    requires
        a.len() == b.len(),
        forall|i: int|
            0 <= i < a.len() ==> (#[trigger] a[i]).id == b[i].id && a[i].score == b[i].score
                && a[i].name == b[i].name,
    ensures
        forall|i: int| 0 <= i < a.len() ==> #[trigger] rank(a, a[i]) == rank(b, b[i]),
        forall|i: int| 0 <= i < b.len() ==> #[trigger] rank(b, b[i]) == rank(a, a[i]),
        top(a) == top(b),
        scored(a) == scored(b),
{
    let has = |p: PlayerModel| has_scored(p);
    count_same(a, b, has, has);
    assert forall|s: u64| #[trigger] ahead(a, s) == ahead(b, s) by {
        let more = |p: PlayerModel| p.score > s;
        count_same(a, b, more, more);
    }
    let key = |p: PlayerModel| standing_key(p);
    assert(a.map_values(key) =~= b.map_values(key));
    order_is_sorted(a.map_values(key));
    count_bound(a, has);
    let places = if scored(a) < LEADERBOARD_SIZE {
        scored(a)
    } else {
        LEADERBOARD_SIZE as nat
    };
    assert forall|i: int| 0 <= i < places implies #[trigger] top(a)[i] == top(b)[i] by {
        let k = standing_order(a)[i];
        assert(a[k].score == b[k].score);
        assert(ahead(a, a[k].score) == ahead(b, b[k].score));
    }
    assert(top(a) =~= top(b));
}

/// The names in use depend on who plays.
proof fn same_names(a: Seq<PlayerModel>, b: Seq<PlayerModel>)
    requires
        a.len() == b.len(),
        forall|i: int| 0 <= i < a.len() ==> (#[trigger] a[i]).name == b[i].name,
    ensures
        names_in_use(a) == names_in_use(b),
{
    assert forall|n: Seq<char>| names_in_use(a).contains(n) implies names_in_use(b).contains(n) by {
        let i = choose|i: int| 0 <= i < a.len() && (#[trigger] a[i]).name == n;
        assert(b[i].name == n);
    }
    assert forall|n: Seq<char>| names_in_use(b).contains(n) implies names_in_use(a).contains(n) by {
        let i = choose|i: int| 0 <= i < b.len() && (#[trigger] b[i]).name == n;
        assert(a[i].name == n);
    }
    assert(names_in_use(a) =~= names_in_use(b));
}

/// One player's picture of the game, ready to be rendered.
pub struct View<'a> {
    /// Server time the view was taken at, for clients to correct their clock.
    pub now: u64,
    pub title: &'a str,
    pub online: usize,
    /// `None` for spectators.
    pub me: Option<Me<'a>>,
    pub phase: PhaseView<'a>,
}

pub struct Me<'a> {
    pub id: PlayerId,
    pub name: &'a str,
    pub score: u64,
    pub rank: Option<usize>,
}

#[derive(Debug, Clone, Copy, PartialEq, Eq, Structural)]
pub struct Tally {
    pub answered: usize,
    pub online: usize,
}

/// Only the reveal carries the correct choice, the explanation and the vote
/// counts, so an open question cannot leak them by construction.
pub enum PhaseView<'a> {
    Question {
        seq: u64,
        number: u32,
        of: u32,
        text: &'a str,
        choices: &'a [String],
        started: u64,
        ends: u64,
        answered: Option<usize>,
        /// What the pick earns if it is right.
        pick_points: Option<u64>,
    },
    Reveal {
        number: u32,
        of: u32,
        text: &'a str,
        choices: &'a [String],
        ends: u64,
        correct: usize,
        counts: &'a [u32],
        explanation: &'a str,
        answered: Option<usize>,
        gained: Option<u64>,
    },
    Leaderboard {
        ends: u64,
        top: &'a [Standing],
        /// Players who scored this round.
        players: usize,
    },
}

impl<'a> Me<'a> {
    pub open spec fn content(&self) -> MeModel {
        MeModel {
            id: self.id,
            name: self.name@,
            score: self.score,
            rank: match self.rank {
                Some(r) => Some(r as nat),
                None => None,
            },
        }
    }
}

impl<'a> PhaseView<'a> {
    pub open spec fn content(&self) -> PhaseViewModel {
        match self {
            PhaseView::Question {
                seq,
                number,
                of,
                text,
                choices,
                started,
                ends,
                answered,
                pick_points,
            } => PhaseViewModel::Question {
                seq: *seq,
                number: *number,
                of: *of,
                text: text@,
                choices: texts(choices@),
                started: *started,
                ends: *ends,
                answered: *answered,
                pick_points: *pick_points,
            },
            PhaseView::Reveal {
                number,
                of,
                text,
                choices,
                ends,
                correct,
                counts,
                explanation,
                answered,
                gained,
            } => PhaseViewModel::Reveal {
                number: *number,
                of: *of,
                text: text@,
                choices: texts(choices@),
                ends: *ends,
                correct: *correct,
                counts: counts@,
                explanation: explanation@,
                answered: *answered,
                gained: *gained,
            },
            PhaseView::Leaderboard { ends, top, players } => PhaseViewModel::Leaderboard {
                ends: *ends,
                top: standing_models(top@),
                players: *players as nat,
            },
        }
    }
}

impl<'a> View<'a> {
    /// What the view says.
    pub open spec fn content(&self) -> ViewModel {
        ViewModel {
            now: self.now,
            title: self.title@,
            online: self.online as nat,
            me: match self.me {
                Some(me) => Some(me.content()),
                None => None,
            },
            phase: self.phase.content(),
        }
    }
}

/// A shuffle of the numbers below `n`.
fn shuffled(n: usize) -> (r: Vec<usize>)
    ensures
        is_shuffle(r@, n as nat),
{
    let mut r: Vec<usize> = Vec::new();
    let mut i: usize = 0;
    while i < n
        invariant
            i <= n,
            r@.len() == i,
            forall|j: int| 0 <= j < i ==> (#[trigger] r@[j]) as int == j,
        decreases n - i,
    {
        r.push(i);
        i += 1;
    }
    let ghost sorted = r@;
    shuffle(&mut r);
    proof {
        broadcast use group_to_multiset_ensures;

        assert(r@.len() == r@.to_multiset().len());
        assert(sorted.len() == sorted.to_multiset().len());
        sorted.lemma_multiset_has_no_duplicates();
        r@.lemma_multiset_has_no_duplicates_conv();
        assert forall|i: int| 0 <= i < r@.len() implies (#[trigger] r@[i]) < n by {
            assert(r@.to_multiset().contains(r@[i]));
            assert(sorted.contains(r@[i]));
        }
    }
    r
}

/// The reply to someone who came, in the terms of the model.
pub open spec fn reply_model(r: Option<(PlayerId, Option<String>)>) -> Option<
    (PlayerId, Option<Seq<char>>),
> {
    match r {
        Some((id, Some(token))) => Some((id, Some(token@))),
        Some((id, None)) => Some((id, None)),
        None => None,
    }
}

pub open spec fn token_text(token: Option<&str>) -> Option<Seq<char>> {
    match token {
        Some(t) => Some(t@),
        None => None,
    }
}

/// A name handed out by chance among these players.
pub open spec fn is_generated(players: Seq<PlayerModel>, name: Seq<char>) -> bool {
    exists|draws: Seq<Seq<char>>|
        are_draws(draws) && #[trigger] is_named(names_in_use(players), draws, name)
}

impl Game {
    /// `Game::new` with the order of the first deck given.
    pub fn new_with(settings: Settings, questions: Vec<Question>, now: u64, order: Vec<usize>) -> (r:
        Self)
        requires
            questions@.len() > 0,
            is_shuffle(order@, questions@.len()),
            after(now, settings.question_seconds) <= u64::MAX,
        ensures
            r.wf(),
            r.model() == started(
                opened(settings.model(), question_models(questions@), now),
                now,
                order@,
            ),
    {
        let mut game = Game {
            settings,
            questions,
            deck: Vec::new(),
            phase: Phase::Leaderboard { ends: now },
            counts: Vec::new(),
            seq: 0,
            question: 0,
            number: 0,
            players: Vec::new(),
            answered: 0,
            tokens: StringHashMap::new(),
            names: Taken::new(),
            next_id: 1,
            online: 0,
            top: Vec::new(),
            scored: 0,
        };
        proof {
            let m = game.model();
            assert(m.players =~= Seq::empty());
            assert(m =~= opened(settings.model(), question_models(questions@), now));
            assert(game.names@ =~= names_in_use(m.players));
            assert(standing_models(game.top@) =~= top(m.players));
        }
        game.start_question(now, order);
        game
    }

    /// `questions` must not be empty.
    pub fn new(settings: Settings, questions: Vec<Question>, now: u64) -> (r: Self)
        requires
            questions@.len() > 0,
            after(now, settings.question_seconds) <= u64::MAX,
        ensures
            r.wf(),
            exists|order: Seq<usize>|
                is_shuffle(order, questions@.len()) && r.model() == #[trigger] started(
                    opened(settings.model(), question_models(questions@), now),
                    now,
                    order,
                ),
    {
        let order = shuffled(questions.len());
        Self::new_with(settings, questions, now, order)
    }

    /// Whether what follows the current phase can be numbered and its deadline
    /// written down.
    pub fn can_advance(&self, now: u64) -> (r: bool)
        ensures
            r == advance_fits(self.model(), now),
    {
        let start = self.seq < u64::MAX && Self::fits(now, self.settings.question_seconds);
        match self.phase {
            Phase::Question { .. } => Self::fits(now, self.settings.reveal_seconds),
            Phase::Reveal { .. } => if self.number >= self.settings.round_questions {
                Self::fits(now, self.settings.leaderboard_seconds)
            } else {
                start
            },
            Phase::Leaderboard { .. } => start,
        }
    }

    /// Whether a deadline that many seconds from now can be written down.
    pub fn fits(now: u64, seconds: u64) -> (r: bool)
        ensures
            r == (after(now, seconds) <= u64::MAX),
    {
        now as u128 + seconds as u128 * 1000 <= u64::MAX as u128
    }

    /// `advance` with the order of a fresh deck given, for when the old one
    /// has run out.
    pub fn advance_with(&mut self, fast: bool, now: u64, order: Vec<usize>) -> (r: bool)
        requires
            old(self).wf(),
            is_due(old(self).model(), fast, now) ==> advance_fits(old(self).model(), now)
                && can_deal(old(self).model(), order@),
        ensures
            final(self).wf(),
            r == is_due(old(self).model(), fast, now),
            final(self).model() == (if r {
                advanced(old(self).model(), now, order@)
            } else {
                old(self).model()
            }),
    {
        if !self.due(fast, now) {
            return false;
        }
        let ghost before = self.model();
        match self.phase {
            Phase::Question { .. } => {
                self.reveal_answer(now);
            },
            Phase::Reveal { .. } => {
                if self.number >= self.settings.round_questions {
                    proof {
                        ranked_is_valid(before, now);
                    }
                    self.phase = Phase::Leaderboard {
                        ends: now + self.settings.leaderboard_seconds * 1000,
                    };
                    assert(self.model() =~= ranked(before, now));
                } else {
                    proof {
                        assert forall|i: int| 0 <= i < before.players.len() implies (
                        #[trigger] before.players[i]).id < before.next_id
                            && before.players[i].score <= (BASE_POINTS + SPEED_POINTS)
                            * before.number by {
                            assert(is_sound(before, before.players[i]));
                        }
                    }
                    self.start_question(now, order);
                }
            },
            Phase::Leaderboard { .. } => {
                proof {
                    swept_can_start(before, now, order@);
                }
                self.sweep(now);
                self.start_question(now, order);
            },
        }
        true
    }

    /// Whether the game moves on at `now`: at the deadline, and in a fast game
    /// also once everyone online has answered.
    pub fn due(&self, fast: bool, now: u64) -> (r: bool)
        requires
            self.wf(),
        ensures
            r == is_due(self.model(), fast, now),
    {
        if now >= self.deadline() {
            return true;
        }
        let open = match self.phase {
            Phase::Question { .. } => true,
            _ => false,
        };
        if !fast || !open || self.online == 0 {
            return false;
        }
        let ghost players = models(self.players@);
        let mut i: usize = 0;
        while i < self.players.len()
            invariant
                i <= self.players@.len(),
                players == models(self.players@),
                self.model().players == players,
                fast,
                now < deadline(self.model().phase),
                forall|j: int|
                    0 <= j < i && is_online(#[trigger] players[j]) ==> has_answered(players[j]),
            decreases self.players@.len() - i,
        {
            if self.players[i].connections > 0 && self.players[i].answer.is_none() {
                assert(is_online(players[i as int]) && !has_answered(players[i as int]));
                return false;
            }
            i += 1;
        }
        true
    }

    /// Moves on if the game is due, in a fast game also once everyone online
    /// has answered. Returns whether anything changed.
    pub fn advance(&mut self, fast: bool, now: u64) -> (r: bool)
        requires
            old(self).wf(),
            is_due(old(self).model(), fast, now) ==> advance_fits(old(self).model(), now),
        ensures
            final(self).wf(),
            r == is_due(old(self).model(), fast, now),
            !r ==> final(self).model() == old(self).model(),
            r ==> exists|order: Seq<usize>|
                can_deal(old(self).model(), order) && final(self).model() == #[trigger] advanced(
                    old(self).model(),
                    now,
                    order,
                ),
    {
        let order = if self.deck.len() == 0 {
            shuffled(self.questions.len())
        } else {
            Vec::new()
        };
        self.advance_with(fast, now, order)
    }

    /// Advance past the current phase if its time is up. Returns whether
    /// anything changed, i.e. whether clients need a fresh view.
    pub fn tick(&mut self, now: u64) -> (r: bool)
        requires
            old(self).wf(),
            now >= deadline(old(self).model().phase) ==> advance_fits(old(self).model(), now),
        ensures
            final(self).wf(),
            r == (now >= deadline(old(self).model().phase)),
            exists|order: Seq<usize>|
                can_deal(old(self).model(), order) && final(self).model() == #[trigger] ticked(
                    old(self).model(),
                    now,
                    order,
                ),
    {
        let order = if self.deck.len() == 0 {
            shuffled(self.questions.len())
        } else {
            Vec::new()
        };
        let r = self.advance_with(false, now, order);
        assert(final(self).model() == ticked(old(self).model(), now, order@));
        r
    }

    fn current(&self) -> (r: &Question)
        requires
            self.wf(),
        ensures
            r.model() == self.model().questions[self.model().question as int],
    {
        &self.questions[self.question]
    }

    /// Whether there is a number left for a new player.
    pub fn can_join(&self) -> (r: bool)
        ensures
            r == (self.model().next_id < u64::MAX),
    {
        self.next_id < u64::MAX
    }

    /// `join` with what is left to chance given: the number behind the new
    /// player's token, and the name.
    pub fn join_with(&mut self, token: Option<&str>, now: u64, number: u128, name: String) -> (r:
        Option<(PlayerId, Option<String>)>)
        requires
            old(self).wf(),
            is_new(old(self).model(), token_text(token)) ==> old(self).model().next_id < u64::MAX
                && is_free_name(old(self).model().players, name@),
        ensures
            final(self).wf(),
            final(self).model() == welcomed(
                old(self).model(),
                token_text(token),
                token_of(number),
                name@,
                now,
            ),
            reply_model(r) == welcome(old(self).model(), token_text(token), token_of(number)),
    {
        if let Some(t) = token {
            if let Some(id) = self.tokens.get(t) {
                return Some((*id, None));
            }
        }
        if self.players.len() >= MAX_PLAYERS {
            return None;
        }
        let ghost before = self.model();
        let id = self.next_id;
        let mut fresh = String::new();
        push_hex_padded(&mut fresh, number, TOKEN_DIGITS);
        assert(fresh@ =~= token_of(number));
        proof {
            joined_is_valid(before, fresh@, name@, now);
        }
        self.next_id = self.next_id + 1;
        self.names.insert(name.clone());
        self.tokens.insert(fresh.clone(), id);
        let ghost list = self.players@;
        self.players.push(
            Player {
                id,
                token: fresh.clone(),
                name,
                score: 0,
                connections: 0,
                last_seen: now,
                answer: None,
                gained: None,
                rank: None,
            },
        );
        proof {
            let old_players = before.players;
            let p = self.players@.last().model();
            let players = models(self.players@);
            assert(players =~= old_players.push(p));
            assert(self.model() =~= joined(before, fresh@, name@, now));
            count_push(old_players, p, |q: PlayerModel| is_online(q));
            count_push(old_players, p, |q: PlayerModel| has_answered(q));
            newcomer_is_unranked(old_players, p);
            assert(self.names@ =~= names_in_use(players)) by {
                assert forall|n: Seq<char>| self.names@.contains(n) implies names_in_use(
                    players,
                ).contains(n) by {
                    if n == name@ {
                        assert(players[old_players.len() as int].name == n);
                    } else {
                        let i = choose|i: int|
                            0 <= i < old_players.len() && (#[trigger] old_players[i]).name == n;
                        assert(players[i].name == n);
                    }
                }
                assert forall|n: Seq<char>| names_in_use(players).contains(n) implies
                    self.names@.contains(n) by {
                    let i = choose|i: int|
                        0 <= i < players.len() && (#[trigger] players[i]).name == n;
                    if i < old_players.len() {
                        assert(old_players[i].name == n);
                    }
                }
            }
            assert forall|i: int| 0 <= i < self.players@.len() implies match (
            #[trigger] self.players@[i]).rank {
                Some(r) => rank(players, players[i]) == Some(r as nat),
                None => rank(players, players[i]) is None,
            } by {
                if i < old_players.len() {
                    assert(self.players@[i] == list[i]);
                    assert(players[i] == old_players[i]);
                    assert(rank(players, players[i]) == rank(old_players, old_players[i]));
                }
            }
            if self.phase is Reveal {
                assert forall|c: int| #[trigger] votes(players, c) == votes(old_players, c) by {
                    count_push(old_players, p, |q: PlayerModel| picked(q, c));
                }
                assert(self.counts@ =~= tally_of(self.model()));
            }
        }
        Some((id, Some(fresh)))
    }

    /// The player behind `token`, or a newly named one. The second value is
    /// the token the client has to store when it did not already have one.
    /// `None` when the server is full.
    pub fn join(&mut self, token: Option<&str>, now: u64) -> (r: Option<
        (PlayerId, Option<String>),
    >)
        requires
            old(self).wf(),
            is_new(old(self).model(), token_text(token)) ==> old(self).model().next_id < u64::MAX,
        ensures
            final(self).wf(),
            is_known(old(self).model(), token_text(token)) ==> final(self).model() == old(
                self,
            ).model() && reply_model(r) == Some(
                (old(self).model().tokens[token_text(token)->0], None::<Seq<char>>),
            ),
            reply_model(r) matches Some((_, None)) ==> is_known(
                old(self).model(),
                token_text(token),
            ),
            exists|number: u128, name: Seq<char>|
                {
                    &&& is_generated(old(self).model().players, name)
                    &&& is_free_name(old(self).model().players, name)
                    &&& final(self).model() == #[trigger] welcomed(
                        old(self).model(),
                        token_text(token),
                        token_of(number),
                        name,
                        now,
                    )
                    &&& reply_model(r) == welcome(
                        old(self).model(),
                        token_text(token),
                        token_of(number),
                    )
                },
    {
        proof {
            names_are_finite(models(self.players@));
        }
        let number = random_number();
        let name = generate(&self.names);
        proof {
            let players = self.model().players;
            assert(is_generated(players, name@));
            assert forall|i: int| 0 <= i < players.len() implies (#[trigger] players[i]).name
                != name@ by {
                if players[i].name == name@ {
                    assert(names_in_use(players).contains(name@));
                }
            }
        }
        let ghost drawn = name@;
        let r = self.join_with(token, now, number, name);
        assert(final(self).model() == welcomed(
            old(self).model(),
            token_text(token),
            token_of(number),
            drawn,
            now,
        ));
        r
    }

    /// The player behind `token`.
    pub fn player_for(&self, token: &str) -> (r: Option<PlayerId>)
        ensures
            r == (if self.model().tokens.contains_key(token@) {
                Some(self.model().tokens[token@])
            } else {
                None
            }),
    {
        match self.tokens.get(token) {
            Some(id) => Some(*id),
            None => None,
        }
    }

    /// How many pages a player has open.
    pub fn connections(&self, id: PlayerId) -> (r: u32)
        requires
            self.wf(),
        ensures
            r == (if knows(self.model().players, id) {
                player(self.model().players, id).connections
            } else {
                0
            }),
    {
        match self.find(id) {
            Some(i) => self.players[i].connections,
            None => 0,
        }
    }

    /// A page of the player is opened.
    pub fn connect(&mut self, id: PlayerId, now: u64)
        requires
            old(self).wf(),
            knows(old(self).model().players, id) ==> player(
                old(self).model().players,
                id,
            ).connections < u32::MAX,
        ensures
            final(self).wf(),
            final(self).model() == connected(old(self).model(), id, now),
    {
        let ghost before = self.model();
        let ghost list = self.players@;
        match self.find(id) {
            Some(i) => {
                let connections = self.players[i].connections;
                proof {
                    count_bound(before.players, |p: PlayerModel| is_online(p));
                }
                if connections == 0 {
                    self.online = self.online + 1;
                }
                self.players[i].connections = connections + 1;
                self.players[i].last_seen = now;
                proof {
                    let f = |p: PlayerModel|
                        PlayerModel {
                            connections: (p.connections + 1) as u32,
                            last_seen: now,
                            ..p
                        };
                    one_changed(before, id, i as int, f, models(self.players@));
                    assert(self.model() =~= connected(before, id, now));
                    assert(self.players@ =~= list.update(i as int, self.players@[i as int]));
                }
            },
            None => {
                proof {
                    none_changed(before.players, id);
                    assert(connected(before, id, now) =~= before);
                }
            },
        }
    }

    /// A page of the player is closed.
    pub fn disconnect(&mut self, id: PlayerId, now: u64)
        requires
            old(self).wf(),
            knows(old(self).model().players, id) ==> player(
                old(self).model().players,
                id,
            ).connections > 0,
        ensures
            final(self).wf(),
            final(self).model() == disconnected(old(self).model(), id, now),
    {
        let ghost before = self.model();
        let ghost list = self.players@;
        match self.find(id) {
            Some(i) => {
                let connections = self.players[i].connections;
                proof {
                    count_some(before.players, i as int, |p: PlayerModel| is_online(p));
                }
                if connections == 1 {
                    self.online = self.online - 1;
                }
                self.players[i].connections = connections - 1;
                self.players[i].last_seen = now;
                proof {
                    let f = |p: PlayerModel|
                        PlayerModel {
                            connections: (p.connections - 1) as u32,
                            last_seen: now,
                            ..p
                        };
                    one_changed(before, id, i as int, f, models(self.players@));
                    assert(self.model() =~= disconnected(before, id, now));
                    assert(self.players@ =~= list.update(i as int, self.players@[i as int]));
                }
            },
            None => {
                proof {
                    none_changed(before.players, id);
                    assert(disconnected(before, id, now) =~= before);
                }
            },
        }
    }

    /// Record or change a player's answer. The last answer before the
    /// deadline counts, and its speed bonus is measured from when it was
    /// given: switching late costs the bonus of the early pick. Sending the
    /// same choice again changes nothing.
    pub fn answer(&mut self, id: PlayerId, seq: u64, choice: usize, now: u64) -> (r: Result<
        (),
        AnswerError,
    >)
        requires
            old(self).wf(),
        ensures
            final(self).wf(),
            r == answer_result(old(self).model(), id, seq, choice, now),
            final(self).model() == after_answer(old(self).model(), id, seq, choice, now),
    {
        let ghost before = self.model();
        let ghost list = self.players@;
        let ends = match self.phase {
            Phase::Question { ends, .. } => ends,
            _ => {
                return Err(AnswerError::Closed);
            },
        };
        if seq != self.seq || now >= ends {
            return Err(AnswerError::Closed);
        }
        if choice >= self.current().choices.len() {
            return Err(AnswerError::InvalidChoice);
        }
        let i = match self.find(id) {
            Some(i) => i,
            None => {
                return Err(AnswerError::Closed);
            },
        };
        self.players[i].last_seen = now;
        let had = self.players[i].answer;
        proof {
            count_bound(before.players, |p: PlayerModel| has_answered(p));
        }
        match had {
            None => {
                self.players[i].answer = Some(Answer { choice, at: now });
                self.answered = self.answered + 1;
            },
            Some(a) => {
                if a.choice != choice {
                    self.players[i].answer = Some(Answer { choice, at: now });
                }
            },
        }
        proof {
            let f = |p: PlayerModel| with_pick(p, choice, now);
            one_changed(before, id, i as int, f, models(self.players@));
            assert(self.model() =~= after_answer(before, id, seq, choice, now));
            assert(self.players@ =~= list.update(i as int, self.players@[i as int]));
        }
        Ok(())
    }

    /// Everything one player's screen needs.
    pub fn view(&self, id: PlayerId, now: u64) -> (r: View<'_>)
        requires
            self.wf(),
        ensures
            r.content() == shown(self.model(), Some(id), now),
    {
        let me = match self.find(id) {
            Some(i) => {
                let p = &self.players[i];
                Me { id, name: p.name.as_str(), score: p.score, rank: p.rank }
            },
            None => {
                proof {
                    reveal_strlit("");
                    assert(""@ =~= Seq::<char>::empty());
                }
                Me { id, name: "", score: 0, rank: None }
            },
        };
        assert(me.content() == me_shown(self.model(), id));
        View {
            now,
            title: self.settings.title.as_str(),
            online: self.online,
            me: Some(me),
            phase: self.phase_view(Some(id)),
        }
    }

    /// What the livestream shows: the same phases, seen by nobody in
    /// particular.
    pub fn spectate(&self, now: u64) -> (r: View<'_>)
        requires
            self.wf(),
        ensures
            r.content() == shown(self.model(), None, now),
    {
        View {
            now,
            title: self.settings.title.as_str(),
            online: self.online,
            me: None,
            phase: self.phase_view(None),
        }
    }

    /// How many players answered the current question, and how many are
    /// online. Unlike the per-choice counts this is safe to show while the
    /// question is open.
    pub fn tally(&self) -> (r: Tally)
        requires
            self.wf(),
        ensures
            r.answered == answered(self.model().players),
            r.online == online(self.model().players),
    {
        Tally { answered: self.answered, online: self.online }
    }

    fn phase_view(&self, id: Option<PlayerId>) -> (r: PhaseView<'_>)
        requires
            self.wf(),
        ensures
            r.content() == phase_shown(self.model(), id),
    {
        let question = self.current();
        let mut pick: Option<Answer> = None;
        let mut gained: Option<u64> = None;
        if let Some(id) = id {
            if let Some(i) = self.find(id) {
                pick = self.players[i].answer;
                gained = self.players[i].gained;
            }
        }
        assert(pick == pick_of(self.model().players, id));
        let answered: Option<usize> = match pick {
            Some(a) => Some(a.choice),
            None => None,
        };
        match self.phase {
            Phase::Question { started, ends } => PhaseView::Question {
                seq: self.seq,
                number: self.number,
                of: self.settings.round_questions,
                text: question.text.as_str(),
                choices: question.choices.as_slice(),
                started,
                ends,
                answered,
                pick_points: match pick {
                    Some(a) => Some(points(started, ends, a.at)),
                    None => None,
                },
            },
            Phase::Reveal { ends } => PhaseView::Reveal {
                number: self.number,
                of: self.settings.round_questions,
                text: question.text.as_str(),
                choices: question.choices.as_slice(),
                ends,
                correct: question.correct,
                counts: self.counts.as_slice(),
                explanation: question.explanation.as_str(),
                answered,
                gained,
            },
            Phase::Leaderboard { ends } => PhaseView::Leaderboard {
                ends,
                top: self.top.as_slice(),
                players: self.scored,
            },
        }
    }
}

/// Someone new has no points and changes nobody's place.
proof fn newcomer_is_unranked(players: Seq<PlayerModel>, p: PlayerModel)
    requires
        p.score == 0,
    ensures
        forall|i: int|
            0 <= i < players.len() ==> #[trigger] rank(players.push(p), players[i]) == rank(
                players,
                players[i],
            ),
        rank(players.push(p), p) is None,
        top(players.push(p)) == top(players),
        scored(players.push(p)) == scored(players),
{
    let more = players.push(p);
    let has = |q: PlayerModel| has_scored(q);
    count_push(players, p, has);
    assert forall|s: u64| #[trigger] ahead(more, s) == ahead(players, s) by {
        count_push(players, p, |q: PlayerModel| q.score > s);
    }
    assert(more.drop_last() =~= players);
    same_top(players, more);
}

/// The leaderboard is made of those who have points: a list and one with
/// someone added who has none have the same.
proof fn same_top(players: Seq<PlayerModel>, more: Seq<PlayerModel>)
    requires
        more.len() == players.len() + 1,
        more.drop_last() == players,
        more.last().score == 0,
        scored(more) == scored(players),
        forall|s: u64| #[trigger] ahead(more, s) == ahead(players, s),
    ensures
        top(more) == top(players),
{
    let n = players.len() as int;
    let few = standing_order(players);
    let many = standing_order(more);
    let few_keys = players.map_values(|p: PlayerModel| standing_key(p));
    let many_keys = more.map_values(|p: PlayerModel| standing_key(p));
    order_is_sorted(few_keys);
    order_is_sorted(many_keys);
    let has = |p: PlayerModel| has_scored(p);
    count_in_order(players, has);
    count_in_order(more, has);
    count_bound(players, has);
    listing_descends(players);
    listing_descends(more);
    scored_come_first(players);
    scored_come_first(more);
    assert forall|i: int| 0 <= i < scored(players) implies few[i] == many[i] by {
        same_places(players, more, i);
    }
    assert(top(more) =~= top(players)) by {
        let places = if scored(players) < LEADERBOARD_SIZE {
            scored(players)
        } else {
            LEADERBOARD_SIZE as nat
        };
        assert forall|i: int| 0 <= i < places implies #[trigger] top(more)[i] == top(players)[i] by {
            assert(few[i] == many[i]);
            assert(more[few[i]] == players[few[i]]);
            assert(ahead(more, players[few[i]].score) == ahead(players, players[few[i]].score));
        }
    }
}

/// On the leaderboard those with points come before those without.
pub proof fn scored_come_first(players: Seq<PlayerModel>)
    ensures
        forall|i: int|
            0 <= i < players.len() ==> (has_scored(players[#[trigger] standing_order(players)[i]])
                <==> i < scored(players)),
{
    let keys = players.map_values(|p: PlayerModel| standing_key(p));
    order_is_sorted(keys);
    let places = standing_order(players);
    let listing = places.map_values(|i: int| players[i]);
    let has = |p: PlayerModel| has_scored(p);
    listing_descends(players);
    count_in_order(players, has);
    let k = first_without(listing);
    count_prefix(listing, k, has);
    assert forall|i: int| 0 <= i < players.len() implies (has_scored(players[#[trigger] places[i]])
        <==> i < scored(players)) by {
        assert(listing[i] == players[places[i]]);
        assert(has(listing[i]) <==> i < k);
    }
}

/// Where those without points begin.
proof fn first_without(listing: Seq<PlayerModel>) -> (k: int)
    requires
        forall|a: int, b: int|
            0 <= a < b < listing.len() ==> (#[trigger] listing[a]).score >= (
            #[trigger] listing[b]).score,
    ensures
        0 <= k <= listing.len(),
        forall|i: int| 0 <= i < listing.len() ==> (has_scored(#[trigger] listing[i]) <==> i < k),
    decreases listing.len(),
{
    if listing.len() == 0 {
        0
    } else {
        let rest = listing.drop_last();
        assert forall|a: int, b: int| 0 <= a < b < rest.len() implies (#[trigger] rest[a]).score
            >= (#[trigger] rest[b]).score by {
            assert(listing[a].score >= listing[b].score);
        }
        let k = first_without(rest);
        let last = listing.len() - 1;
        assert forall|i: int| 0 <= i < last implies (has_scored(#[trigger] listing[i]) <==> i
            < k) by {
            assert(rest[i] == listing[i]);
        }
        if has_scored(listing[last]) {
            assert forall|i: int| 0 <= i < last implies has_scored(#[trigger] listing[i]) by {
                assert(listing[i].score >= listing[last].score);
            }
            if k < last {
                assert(has_scored(listing[k]));
            }
            listing.len() as int
        } else {
            k
        }
    }
}

/// Those with points are listed in the same places, with or without someone
/// added who has none.
proof fn same_places(players: Seq<PlayerModel>, more: Seq<PlayerModel>, i: int)
    requires
        more.len() == players.len() + 1,
        more.drop_last() == players,
        more.last().score == 0,
        scored(more) == scored(players),
        0 <= i < scored(players),
    ensures
        standing_order(players)[i] == standing_order(more)[i],
{
    broadcast use group_to_multiset_ensures;

    let n = players.len() as int;
    let few = standing_order(players);
    let many = standing_order(more);
    let few_keys = players.map_values(|p: PlayerModel| standing_key(p));
    let many_keys = more.map_values(|p: PlayerModel| standing_key(p));
    order_is_sorted(few_keys);
    order_is_sorted(many_keys);
    scored_come_first(more);
    assert(many.contains(n));
    let j = choose|j: int| 0 <= j < many.len() && many[j] == n;
    assert(j >= scored(more)) by {
        assert(!has_scored(more[many[j]]));
    }
    let rest = many.remove(j);
    let all = Seq::new(players.len(), |i: int| i);
    let le = |a: int, b: int| listed(few_keys, a, b);
    listed_is_total(few_keys);
    assert(rest.to_multiset() =~= all.to_multiset()) by {
        assert(Seq::new(more.len(), |i: int| i) =~= all.push(n));
        assert(rest.to_multiset() =~= many.to_multiset().remove(n));
    }
    assert forall|a: int, b: int| 0 <= a < b < rest.len() implies #[trigger] le(rest[a], rest[b]) by {
        let x = if a < j {
            a
        } else {
            a + 1
        };
        let y = if b < j {
            b
        } else {
            b + 1
        };
        assert(rest[a] == many[x]);
        assert(rest[b] == many[y]);
        assert(listed(many_keys, many[x], many[y]));
        assert(many[x] != n && many[y] != n);
        assert(0 <= many[x] < many_keys.len());
        assert(0 <= many[y] < many_keys.len());
        assert(few_keys[many[x]] == many_keys[many[x]]);
        assert(few_keys[many[y]] == many_keys[many[y]]);
    }
    lemma_sorted_unique(rest, few, le);
    assert(rest[i] == many[i]);
}

/// What a change to one player leaves as it was.
proof fn one_changed(
    before: GameModel,
    id: PlayerId,
    i: int,
    f: spec_fn(PlayerModel) -> PlayerModel,
    players: Seq<PlayerModel>,
)
    requires
        is_valid(before),
        0 <= i < before.players.len(),
        before.players[i].id == id,
        players =~= before.players.update(i, f(before.players[i])),
        forall|p: PlayerModel|
            is_sound(before, p) ==> is_sound(before, #[trigger] f(p)) && f(p).id == p.id && f(
                p,
            ).name == p.name && f(p).token == p.token && f(p).score == p.score,
    ensures
        players == with_player(before.players, id, f),
        is_valid(GameModel { players, ..before }),
        names_in_use(players) == names_in_use(before.players),
        forall|k: int|
            0 <= k < players.len() ==> #[trigger] rank(players, players[k]) == rank(
                before.players,
                before.players[k],
            ),
        top(players) == top(before.players),
        scored(players) == scored(before.players),
        online(players) + (if is_online(before.players[i]) {
            1nat
        } else {
            0nat
        }) == online(before.players) + (if is_online(players[i]) {
            1nat
        } else {
            0nat
        }),
        answered(players) + (if has_answered(before.players[i]) {
            1nat
        } else {
            0nat
        }) == answered(before.players) + (if has_answered(players[i]) {
            1nat
        } else {
            0nat
        }),
        players[i].answer == before.players[i].answer ==> tally_of(
            GameModel { players, ..before },
        ) == tally_of(before),
{
    let p = before.players[i];
    assert(is_sound(before, p));
    assert(is_sound(before, f(p)));
    assert forall|k: int| 0 <= k < players.len() implies players[k] == with_player(
        before.players,
        id,
        f,
    )[k] by {
        if k < i {
            assert(before.players[k].id < before.players[i].id);
        } else if k > i {
            assert(before.players[i].id < before.players[k].id);
        }
    }
    assert(players =~= with_player(before.players, id, f));
    with_player_is_valid(before, id, f);
    same_names(before.players, players);
    same_scores(before.players, players);
    count_update(before.players, i, f(p), |q: PlayerModel| is_online(q));
    count_update(before.players, i, f(p), |q: PlayerModel| has_answered(q));
    if players[i].answer == p.answer {
        assert forall|c: int| #[trigger] votes(players, c) == votes(before.players, c) by {
            count_same(
                players,
                before.players,
                |q: PlayerModel| picked(q, c),
                |q: PlayerModel| picked(q, c),
            );
        }
        assert(tally_of(GameModel { players, ..before }) =~= tally_of(before));
    }
}

/// A change to a player who is not there changes nothing.
proof fn none_changed(players: Seq<PlayerModel>, id: PlayerId)
    requires
        !knows(players, id),
    ensures
        forall|f: spec_fn(PlayerModel) -> PlayerModel| #[trigger]
            with_player(players, id, f) == players,
{
    assert forall|f: spec_fn(PlayerModel) -> PlayerModel| #[trigger]
        with_player(players, id, f) == players by {
        assert(with_player(players, id, f) =~= players);
    }
}

} // verus!
