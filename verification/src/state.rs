//! The game as mathematics: what a game is, and what each event makes of it.
//! The contracts of `game` speak of these.

use crate::count::count;
use crate::quiz::QuestionModel;
use crate::sort::{order_of, Key};
use crate::text::hex_padded;
use vstd::prelude::*;

verus! {

pub type PlayerId = u64;

/// Points for a correct answer given at the last moment.
pub const BASE_POINTS: u64 = 500;

/// Extra points for a correct answer, scaled by the time left on the clock.
pub const SPEED_POINTS: u64 = 500;

pub const LEADERBOARD_SIZE: usize = 10;

/// Upper bound on remembered players; anyone past it is turned away.
pub const MAX_PLAYERS: usize = 20_000;

/// Offline players are forgotten at the next round reset after this long.
pub const FORGET_AFTER_MS: u64 = 3_600_000;

/// Digits of a player's token.
pub const TOKEN_DIGITS: usize = 32;

/// A pick, and when it was made.
#[derive(Debug, Clone, Copy, PartialEq, Eq, Structural)]
pub struct Answer {
    pub choice: usize,
    pub at: u64,
}

/// Where in a round the game is. Times are milliseconds since the Unix epoch.
#[derive(Debug, Clone, Copy, PartialEq, Eq, Structural)]
pub enum Phase {
    Question { started: u64, ends: u64 },
    Reveal { ends: u64 },
    Leaderboard { ends: u64 },
}

#[derive(Debug, Clone, Copy, PartialEq, Eq, Structural)]
pub enum AnswerError {
    /// Wrong question, or the question already closed.
    Closed,
    InvalidChoice,
}

/// Timings and title.
pub struct SettingsModel {
    pub title: Seq<char>,
    pub question_seconds: u64,
    pub reveal_seconds: u64,
    pub round_questions: u32,
    pub leaderboard_seconds: u64,
}

/// A player, with the answer to the current question and what the last
/// revealed one earned.
pub struct PlayerModel {
    pub id: PlayerId,
    pub token: Seq<char>,
    pub name: Seq<char>,
    pub score: u64,
    pub connections: u32,
    pub last_seen: u64,
    pub answer: Option<Answer>,
    pub gained: Option<u64>,
}

/// A game. Players are in the order in which they joined.
#[verifier::ext_equal]
pub struct GameModel {
    pub settings: SettingsModel,
    pub questions: Seq<QuestionModel>,
    /// Questions still to be asked before they repeat; drawn from the back.
    pub deck: Seq<usize>,
    pub phase: Phase,
    /// Identifies the current question across rounds.
    pub seq: u64,
    pub question: usize,
    /// Position of the current question within the round, from 1.
    pub number: u32,
    pub players: Seq<PlayerModel>,
    /// The player behind each token.
    pub tokens: Map<Seq<char>, PlayerId>,
    pub next_id: PlayerId,
}

/// An entry of the leaderboard.
pub struct StandingModel {
    pub id: PlayerId,
    pub rank: nat,
    pub name: Seq<char>,
    pub score: u64,
}

/// What a player is told of themselves.
pub struct MeModel {
    pub id: PlayerId,
    pub name: Seq<char>,
    pub score: u64,
    pub rank: Option<nat>,
}

/// What is shown of the current phase.
pub enum PhaseViewModel {
    Question {
        seq: u64,
        number: u32,
        of: u32,
        text: Seq<char>,
        choices: Seq<Seq<char>>,
        started: u64,
        ends: u64,
        answered: Option<usize>,
        pick_points: Option<u64>,
    },
    Reveal {
        number: u32,
        of: u32,
        text: Seq<char>,
        choices: Seq<Seq<char>>,
        ends: u64,
        correct: usize,
        counts: Seq<u32>,
        explanation: Seq<char>,
        answered: Option<usize>,
        gained: Option<u64>,
    },
    Leaderboard { ends: u64, top: Seq<StandingModel>, players: nat },
}

/// One player's picture of the game.
pub struct ViewModel {
    pub now: u64,
    pub title: Seq<char>,
    pub online: nat,
    pub me: Option<MeModel>,
    pub phase: PhaseViewModel,
}

// Players

pub open spec fn is_online(p: PlayerModel) -> bool {
    p.connections > 0
}

pub open spec fn has_answered(p: PlayerModel) -> bool {
    p.answer is Some
}

pub open spec fn has_scored(p: PlayerModel) -> bool {
    p.score > 0
}

pub open spec fn picked(p: PlayerModel, choice: int) -> bool {
    p.answer is Some && p.answer->0.choice == choice
}

/// How many players are online.
pub open spec fn online(players: Seq<PlayerModel>) -> nat {
    count(players, |p: PlayerModel| is_online(p))
}

/// How many players answered the current question.
pub open spec fn answered(players: Seq<PlayerModel>) -> nat {
    count(players, |p: PlayerModel| has_answered(p))
}

/// How many players have points.
pub open spec fn scored(players: Seq<PlayerModel>) -> nat {
    count(players, |p: PlayerModel| has_scored(p))
}

/// How many players picked a choice.
pub open spec fn votes(players: Seq<PlayerModel>, choice: int) -> nat {
    count(players, |p: PlayerModel| picked(p, choice))
}

/// How many players have more points than this.
pub open spec fn ahead(players: Seq<PlayerModel>, score: u64) -> nat {
    count(players, |p: PlayerModel| p.score > score)
}

/// Competition ranking: a player with points comes after all who have more.
/// Ties share a place, the next one skips.
pub open spec fn rank(players: Seq<PlayerModel>, p: PlayerModel) -> Option<nat> {
    if has_scored(p) {
        Some(1 + ahead(players, p.score))
    } else {
        None
    }
}

/// What the leaderboard is sorted by: most points first, then the name.
pub open spec fn standing_key(p: PlayerModel) -> Key {
    Key { first: (u64::MAX - p.score) as nat, text: p.name, second: 0 }
}

/// The players as the leaderboard lists them.
pub open spec fn standing_order(players: Seq<PlayerModel>) -> Seq<int> {
    order_of(players.map_values(|p: PlayerModel| standing_key(p)))
}

pub open spec fn standing(players: Seq<PlayerModel>, p: PlayerModel) -> StandingModel {
    StandingModel { id: p.id, rank: 1 + ahead(players, p.score), name: p.name, score: p.score }
}

/// The leaderboard: of those who have points, the best.
pub open spec fn top(players: Seq<PlayerModel>) -> Seq<StandingModel> {
    let places = if scored(players) < LEADERBOARD_SIZE {
        scored(players)
    } else {
        LEADERBOARD_SIZE as nat
    };
    Seq::new(places, |i: int| standing(players, players[standing_order(players)[i]]))
}

/// Whether there is a player with this number.
pub open spec fn knows(players: Seq<PlayerModel>, id: PlayerId) -> bool {
    exists|i: int| 0 <= i < players.len() && (#[trigger] players[i]).id == id
}

/// The player with this number.
pub open spec fn player(players: Seq<PlayerModel>, id: PlayerId) -> PlayerModel {
    players[choose|i: int| 0 <= i < players.len() && (#[trigger] players[i]).id == id]
}

/// Changes one player and nobody else.
pub open spec fn with_player(
    players: Seq<PlayerModel>,
    id: PlayerId,
    f: spec_fn(PlayerModel) -> PlayerModel,
) -> Seq<PlayerModel> {
    players.map_values(
        |p: PlayerModel|
            if p.id == id {
                f(p)
            } else {
                p
            },
    )
}

// Points

/// What a right answer given at `at` is worth, while the question is open
/// from `started` to `ends`: the base, and the share of the speed points that
/// is the share of the time left.
pub open spec fn worth(started: u64, ends: u64, at: u64) -> u64 {
    let window = if ends - started > 1 {
        ends - started
    } else {
        1
    };
    let left = if at >= ends {
        0
    } else if ends - at > window {
        window
    } else {
        ends - at
    };
    (BASE_POINTS + SPEED_POINTS * left / window) as u64
}

// The clock

/// When the current phase ends.
pub open spec fn deadline(phase: Phase) -> u64 {
    match phase {
        Phase::Question { ends, .. } => ends,
        Phase::Reveal { ends } => ends,
        Phase::Leaderboard { ends } => ends,
    }
}

/// That many seconds from now, in milliseconds.
pub open spec fn after(now: u64, seconds: u64) -> int {
    now + seconds * 1000
}

// Drawing questions

/// The numbers below `n`, each once, in some order.
pub open spec fn is_shuffle(order: Seq<usize>, n: nat) -> bool {
    &&& order.len() == n
    &&& order.no_duplicates()
    &&& forall|i: int| 0 <= i < order.len() ==> (#[trigger] order[i]) < n
}

/// A shuffle is only needed for a deck that has run out.
pub open spec fn can_deal(m: GameModel, order: Seq<usize>) -> bool {
    m.deck.len() > 0 || is_shuffle(order, m.questions.len())
}

/// The deck to draw from. One that has run out is replaced by a shuffle of all
/// questions, rearranged where it would ask the same thing twice in a row.
pub open spec fn dealt(m: GameModel, order: Seq<usize>) -> Seq<usize> {
    if m.deck.len() > 0 {
        m.deck
    } else if order.len() > 1 && m.seq > 0 && order.last() == m.question {
        order.update(0, order.last()).update(order.len() - 1, order[0])
    } else {
        order
    }
}

// Events

/// Nobody has answered the question that now opens.
pub open spec fn unanswered(p: PlayerModel) -> PlayerModel {
    PlayerModel { answer: None, gained: None, ..p }
}

/// The next question opens.
pub open spec fn started(m: GameModel, now: u64, order: Seq<usize>) -> GameModel {
    let deck = dealt(m, order);
    GameModel {
        deck: deck.drop_last(),
        question: deck.last(),
        seq: (m.seq + 1) as u64,
        number: (m.number + 1) as u32,
        players: m.players.map_values(|p: PlayerModel| unanswered(p)),
        phase: Phase::Question {
            started: now,
            ends: after(now, m.settings.question_seconds) as u64,
        },
        ..m
    }
}

/// A right answer is paid.
pub open spec fn paid(p: PlayerModel, correct: usize, started: u64, ends: u64) -> PlayerModel {
    if picked(p, correct as int) {
        let points = worth(started, ends, p.answer->0.at);
        PlayerModel { score: (p.score + points) as u64, gained: Some(points), ..p }
    } else {
        p
    }
}

/// The open question closes and its answer is shown.
pub open spec fn revealed(m: GameModel, now: u64) -> GameModel {
    let correct = m.questions[m.question as int].correct;
    match m.phase {
        Phase::Question { started, ends } => GameModel {
            players: m.players.map_values(|p: PlayerModel| paid(p, correct, started, ends)),
            phase: Phase::Reveal { ends: after(now, m.settings.reveal_seconds) as u64 },
            ..m
        },
        _ => m,
    }
}

/// Whether a player is remembered into the next round.
pub open spec fn is_kept(p: PlayerModel, now: u64) -> bool {
    ||| p.connections > 0
    ||| now <= p.last_seen
    ||| now - p.last_seen < FORGET_AFTER_MS
}

/// The player at the start of a round.
pub open spec fn reset(p: PlayerModel) -> PlayerModel {
    PlayerModel { score: 0, ..p }
}

/// The tokens of those who are forgotten.
pub open spec fn forgotten_tokens(players: Seq<PlayerModel>, now: u64) -> Set<Seq<char>> {
    Set::new(
        |t: Seq<char>|
            exists|i: int|
                0 <= i < players.len() && !is_kept(players[i], now) && (#[trigger] players[i]).token
                    == t,
    )
}

/// Long gone players are forgotten and everyone's points are taken away.
pub open spec fn swept(m: GameModel, now: u64) -> GameModel {
    GameModel {
        players: m.players.filter(|p: PlayerModel| is_kept(p, now)).map_values(
            |p: PlayerModel| reset(p),
        ),
        tokens: m.tokens.remove_keys(forgotten_tokens(m.players, now)),
        number: 0,
        ..m
    }
}

/// The leaderboard is shown.
pub open spec fn ranked(m: GameModel, now: u64) -> GameModel {
    GameModel {
        phase: Phase::Leaderboard { ends: after(now, m.settings.leaderboard_seconds) as u64 },
        ..m
    }
}

/// The current phase is over.
pub open spec fn advanced(m: GameModel, now: u64, order: Seq<usize>) -> GameModel {
    match m.phase {
        Phase::Question { .. } => revealed(m, now),
        Phase::Reveal { .. } => if m.number >= m.settings.round_questions {
            ranked(m, now)
        } else {
            started(m, now, order)
        },
        Phase::Leaderboard { .. } => started(swept(m, now), now, order),
    }
}

/// The clock shows `now`.
pub open spec fn ticked(m: GameModel, now: u64, order: Seq<usize>) -> GameModel {
    if now < deadline(m.phase) {
        m
    } else {
        advanced(m, now, order)
    }
}

/// The next question can be numbered and its deadline written down.
pub open spec fn start_fits(m: GameModel, now: u64) -> bool {
    &&& m.seq < u64::MAX
    &&& after(now, m.settings.question_seconds) <= u64::MAX
}

/// What follows the current phase can be numbered and its deadline written
/// down.
pub open spec fn advance_fits(m: GameModel, now: u64) -> bool {
    match m.phase {
        Phase::Question { .. } => after(now, m.settings.reveal_seconds) <= u64::MAX,
        Phase::Reveal { .. } => if m.number >= m.settings.round_questions {
            after(now, m.settings.leaderboard_seconds) <= u64::MAX
        } else {
            start_fits(m, now)
        },
        Phase::Leaderboard { .. } => start_fits(m, now),
    }
}

/// Whether the question is open and everyone online has answered it.
pub open spec fn all_in(m: GameModel) -> bool {
    &&& m.phase is Question
    &&& online(m.players) > 0
    &&& forall|i: int|
        0 <= i < m.players.len() && is_online(#[trigger] m.players[i]) ==> has_answered(
            m.players[i],
        )
}

/// Whether the game moves on at `now`: at the deadline, and in a fast game
/// also once everyone online has answered.
pub open spec fn is_due(m: GameModel, fast: bool, now: u64) -> bool {
    now >= deadline(m.phase) || (fast && all_in(m))
}

/// Someone without a known token joins.
pub open spec fn joined(m: GameModel, token: Seq<char>, name: Seq<char>, now: u64) -> GameModel {
    GameModel {
        players: m.players.push(
            PlayerModel {
                id: m.next_id,
                token,
                name,
                score: 0,
                connections: 0,
                last_seen: now,
                answer: None,
                gained: None,
            },
        ),
        tokens: m.tokens.insert(token, m.next_id),
        next_id: (m.next_id + 1) as u64,
        ..m
    }
}

/// Whether the token is that of a player.
pub open spec fn is_known(m: GameModel, token: Option<Seq<char>>) -> bool {
    token is Some && m.tokens.contains_key(token->0)
}

/// Whether someone with this token becomes a new player.
pub open spec fn is_new(m: GameModel, token: Option<Seq<char>>) -> bool {
    !is_known(m, token) && m.players.len() < MAX_PLAYERS
}

/// The game after someone came, who gets this token and name if they are new.
pub open spec fn welcomed(
    m: GameModel,
    token: Option<Seq<char>>,
    fresh: Seq<char>,
    name: Seq<char>,
    now: u64,
) -> GameModel {
    if is_new(m, token) {
        joined(m, fresh, name, now)
    } else {
        m
    }
}

/// What someone who came is told: which player they are, and the token to
/// keep if they are new. Nothing where the game is full.
pub open spec fn welcome(m: GameModel, token: Option<Seq<char>>, fresh: Seq<char>) -> Option<
    (PlayerId, Option<Seq<char>>),
> {
    if is_known(m, token) {
        Some((m.tokens[token->0], None))
    } else if m.players.len() >= MAX_PLAYERS {
        None
    } else {
        Some((m.next_id, Some(fresh)))
    }
}

/// The token for a random number.
pub open spec fn token_of(n: u128) -> Seq<char> {
    hex_padded(n as nat, TOKEN_DIGITS as nat)
}

/// A name that no player has.
pub open spec fn is_free_name(players: Seq<PlayerModel>, name: Seq<char>) -> bool {
    forall|i: int| 0 <= i < players.len() ==> (#[trigger] players[i]).name != name
}

/// The names of the players.
pub open spec fn names_in_use(players: Seq<PlayerModel>) -> Set<Seq<char>> {
    Set::new(
        |n: Seq<char>|
            exists|i: int| 0 <= i < players.len() && (#[trigger] players[i]).name == n,
    )
}

/// A page of the player is opened.
pub open spec fn connected(m: GameModel, id: PlayerId, now: u64) -> GameModel {
    GameModel {
        players: with_player(
            m.players,
            id,
            |p: PlayerModel|
                PlayerModel {
                    connections: (p.connections + 1) as u32,
                    last_seen: now,
                    ..p
                },
        ),
        ..m
    }
}

/// A page of the player is closed.
pub open spec fn disconnected(m: GameModel, id: PlayerId, now: u64) -> GameModel {
    GameModel {
        players: with_player(
            m.players,
            id,
            |p: PlayerModel|
                PlayerModel {
                    connections: (p.connections - 1) as u32,
                    last_seen: now,
                    ..p
                },
        ),
        ..m
    }
}

/// What a pick is answered.
pub open spec fn answer_result(
    m: GameModel,
    id: PlayerId,
    seq: u64,
    choice: usize,
    now: u64,
) -> Result<(), AnswerError> {
    match m.phase {
        Phase::Question { ends, .. } => if seq != m.seq || now >= ends {
            Err(AnswerError::Closed)
        } else if choice >= m.questions[m.question as int].choices.len() {
            Err(AnswerError::InvalidChoice)
        } else if !knows(m.players, id) {
            Err(AnswerError::Closed)
        } else {
            Ok(())
        },
        _ => Err(AnswerError::Closed),
    }
}

/// The player after picking a choice: the same choice again changes nothing
/// of the answer.
pub open spec fn with_pick(p: PlayerModel, choice: usize, now: u64) -> PlayerModel {
    PlayerModel {
        last_seen: now,
        answer: if picked(p, choice as int) {
            p.answer
        } else {
            Some(Answer { choice, at: now })
        },
        ..p
    }
}

/// The game after a pick.
pub open spec fn after_answer(
    m: GameModel,
    id: PlayerId,
    seq: u64,
    choice: usize,
    now: u64,
) -> GameModel {
    if answer_result(m, id, seq, choice, now) is Ok {
        GameModel {
            players: with_player(m.players, id, |p: PlayerModel| with_pick(p, choice, now)),
            ..m
        }
    } else {
        m
    }
}

// Views

/// What a player, or nobody in particular, picked.
pub open spec fn pick_of(players: Seq<PlayerModel>, id: Option<PlayerId>) -> Option<Answer> {
    if id is Some && knows(players, id->0) {
        player(players, id->0).answer
    } else {
        None
    }
}

/// What a player, or nobody in particular, gained.
pub open spec fn gain_of(players: Seq<PlayerModel>, id: Option<PlayerId>) -> Option<u64> {
    if id is Some && knows(players, id->0) {
        player(players, id->0).gained
    } else {
        None
    }
}

pub open spec fn choice_of(answer: Option<Answer>) -> Option<usize> {
    match answer {
        Some(a) => Some(a.choice),
        None => None,
    }
}

/// The votes for each choice of the current question.
pub open spec fn tally_of(m: GameModel) -> Seq<u32> {
    Seq::new(
        m.questions[m.question as int].choices.len(),
        |c: int| votes(m.players, c) as u32,
    )
}

/// All votes together.
pub open spec fn total(counts: Seq<u32>) -> nat
    decreases counts.len(),
{
    if counts.len() == 0 {
        0
    } else {
        total(counts.drop_last()) + counts.last() as nat
    }
}

/// Only the reveal shows the correct choice, the explanation and the votes.
pub open spec fn phase_shown(m: GameModel, id: Option<PlayerId>) -> PhaseViewModel {
    let question = m.questions[m.question as int];
    let pick = pick_of(m.players, id);
    match m.phase {
        Phase::Question { started, ends } => PhaseViewModel::Question {
            seq: m.seq,
            number: m.number,
            of: m.settings.round_questions,
            text: question.text,
            choices: question.choices,
            started,
            ends,
            answered: choice_of(pick),
            pick_points: match pick {
                Some(a) => Some(worth(started, ends, a.at)),
                None => None,
            },
        },
        Phase::Reveal { ends } => PhaseViewModel::Reveal {
            number: m.number,
            of: m.settings.round_questions,
            text: question.text,
            choices: question.choices,
            ends,
            correct: question.correct,
            counts: tally_of(m),
            explanation: question.explanation,
            answered: choice_of(pick),
            gained: gain_of(m.players, id),
        },
        Phase::Leaderboard { ends } => PhaseViewModel::Leaderboard {
            ends,
            top: top(m.players),
            players: scored(m.players),
        },
    }
}

/// What a player is told of themselves. Someone unknown has no name, no points
/// and no rank.
pub open spec fn me_shown(m: GameModel, id: PlayerId) -> MeModel {
    if knows(m.players, id) {
        let p = player(m.players, id);
        MeModel { id, name: p.name, score: p.score, rank: rank(m.players, p) }
    } else {
        MeModel { id, name: Seq::empty(), score: 0, rank: None }
    }
}

/// What a player's screen shows, or, without one, the livestream.
pub open spec fn shown(m: GameModel, id: Option<PlayerId>, now: u64) -> ViewModel {
    ViewModel {
        now,
        title: m.settings.title,
        online: online(m.players),
        me: match id {
            Some(id) => Some(me_shown(m, id)),
            None => None,
        },
        phase: phase_shown(m, id),
    }
}

// What always holds

/// Players are numbered in the order in which they joined.
pub open spec fn ids_increase(players: Seq<PlayerModel>) -> bool {
    forall|i: int, j: int|
        0 <= i < j < players.len() ==> (#[trigger] players[i]).id < (#[trigger] players[j]).id
}

/// No two players have the same name.
pub open spec fn names_differ(players: Seq<PlayerModel>) -> bool {
    forall|i: int, j: int|
        0 <= i < j < players.len() ==> (#[trigger] players[i]).name != (#[trigger] players[j]).name
}

/// The points a round can have given so far: a thousand for each question
/// that was revealed.
pub open spec fn most_points(m: GameModel) -> int {
    if m.phase is Question {
        (BASE_POINTS + SPEED_POINTS) * (m.number - 1)
    } else {
        (BASE_POINTS + SPEED_POINTS) * m.number
    }
}

/// What holds of one player of a game.
pub open spec fn is_sound(m: GameModel, p: PlayerModel) -> bool {
    &&& p.id < m.next_id
    &&& p.score <= most_points(m)
    &&& p.answer is Some ==> p.answer->0.choice < m.questions[m.question as int].choices.len()
    &&& m.phase is Question ==> p.gained is None
    &&& p.gained is Some ==> {
        &&& picked(p, m.questions[m.question as int].correct as int)
        &&& BASE_POINTS <= p.gained->0 <= BASE_POINTS + SPEED_POINTS
    }
    &&& m.phase is Reveal && picked(p, m.questions[m.question as int].correct as int)
        ==> p.gained is Some
}

/// A token leads to the player that has it.
pub open spec fn tokens_lead(m: GameModel) -> bool {
    forall|t: Seq<char>|
        #[trigger] m.tokens.contains_key(t) ==> knows(m.players, m.tokens[t]) && player(
            m.players,
            m.tokens[t],
        ).token == t
}

/// What holds of every game at every moment.
pub open spec fn is_valid(m: GameModel) -> bool {
    &&& m.questions.len() > 0
    &&& m.question < m.questions.len()
    &&& m.deck.no_duplicates()
    &&& forall|i: int| 0 <= i < m.deck.len() ==> (#[trigger] m.deck[i]) < m.questions.len()
    &&& !m.deck.contains(m.question)
    &&& m.seq >= 1
    &&& m.number >= 1
    &&& m.phase is Question ==> m.phase->started <= m.phase->Question_ends
    &&& m.players.len() <= MAX_PLAYERS
    &&& ids_increase(m.players)
    &&& names_differ(m.players)
    &&& forall|i: int| 0 <= i < m.players.len() ==> is_sound(m, #[trigger] m.players[i])
    &&& tokens_lead(m)
}

} // verus!
