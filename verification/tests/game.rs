//! The game as a whole: rounds, answers, points and views.

use nixcon_quiz::game::{
    points, AnswerError, Game, PhaseView, PlayerId, Settings, Tally, View, BASE_POINTS,
    SPEED_POINTS,
};
use nixcon_quiz::quiz::{parse, Question};

fn game() -> Game {
    let settings = Settings {
        question_seconds: 10,
        reveal_seconds: 5,
        round_questions: 2,
        leaderboard_seconds: 20,
        ..Settings::default()
    };
    let question = parse(
        r#"
            question = "Which one?"
            choices = ["wrong", "right", "also wrong"]
            answer = "right"
            explanation = "because"
            "#,
    )
    .unwrap();
    Game::new(settings, vec![question], 1_000_000)
}

fn player(game: &mut Game) -> PlayerId {
    game.join(None, 1_000_000).unwrap().0
}

/// What identifies the open question.
fn seq(g: &Game) -> u64 {
    match g.spectate(0).phase {
        PhaseView::Question { seq, .. } => seq,
        _ => panic!("no open question"),
    }
}

/// (answered, gained) as the reveal shows them to `id`.
fn result(g: &Game, id: PlayerId) -> (Option<usize>, Option<u64>) {
    match g.view(id, 0).phase {
        PhaseView::Reveal {
            answered, gained, ..
        } => (answered, gained),
        _ => panic!("not revealing"),
    }
}

#[test]
fn open_question_shows_own_pick_but_no_points_yet() {
    let mut g = game();
    let a = player(&mut g);
    let seq = seq(&g);
    g.answer(a, seq, 1, 1_000_100).unwrap();
    let v = g.view(a, 0);
    assert!(matches!(
        v.phase,
        PhaseView::Question {
            answered: Some(1),
            ..
        }
    ));
    assert_eq!(
        v.me.as_ref().unwrap().score,
        0,
        "score must not move before the reveal"
    );
}

#[test]
fn faster_correct_answers_score_more_and_wrong_ones_nothing() {
    let mut g = game();
    let (fast, slow, wrong, silent) = (
        player(&mut g),
        player(&mut g),
        player(&mut g),
        player(&mut g),
    );
    let seq = seq(&g);
    g.answer(fast, seq, 1, 1_000_000).unwrap();
    g.answer(slow, seq, 1, 1_009_000).unwrap();
    g.answer(wrong, seq, 0, 1_000_000).unwrap();
    assert!(!g.tick(1_009_999));
    assert!(g.tick(1_010_000));

    let PhaseView::Reveal {
        correct, counts, ..
    } = g.view(fast, 0).phase
    else {
        panic!("not revealing")
    };
    assert_eq!(correct, 1);
    assert_eq!(counts, [1, 2, 0]);
    assert_eq!(result(&g, fast), (Some(1), Some(1000)));
    assert_eq!(result(&g, slow), (Some(1), Some(550)));
    assert_eq!(result(&g, wrong), (Some(0), None));
    assert_eq!(result(&g, silent), (None, None));
    assert_eq!(g.view(fast, 0).me.as_ref().unwrap().rank, Some(1));
    assert_eq!(g.view(slow, 0).me.as_ref().unwrap().rank, Some(2));
    assert_eq!(g.view(wrong, 0).me.as_ref().unwrap().score, 0);
    assert_eq!(g.view(wrong, 0).me.as_ref().unwrap().rank, None);
}

#[test]
fn answers_can_change_until_the_question_closes() {
    let mut g = game();
    let (switcher, repeater) = (player(&mut g), player(&mut g));
    let seq = seq(&g);
    assert_eq!(
        g.answer(switcher, seq + 1, 1, 1_000_001),
        Err(AnswerError::Closed)
    );
    assert_eq!(
        g.answer(switcher, seq, 3, 1_000_001),
        Err(AnswerError::InvalidChoice)
    );
    assert_eq!(
        g.answer(switcher, seq, 1, 1_010_000),
        Err(AnswerError::Closed),
        "at the deadline"
    );
    // Wrong first, right halfway through: scored as a halfway answer.
    g.answer(switcher, seq, 0, 1_000_000).unwrap();
    g.answer(switcher, seq, 1, 1_005_000).unwrap();
    // Re-sending the same choice keeps the original, faster time.
    g.answer(repeater, seq, 1, 1_000_000).unwrap();
    g.answer(repeater, seq, 1, 1_009_000).unwrap();

    g.tick(1_010_000);
    assert_eq!(result(&g, switcher), (Some(1), Some(750)));
    assert_eq!(result(&g, repeater), (Some(1), Some(1000)));
    assert_eq!(
        g.answer(switcher, seq, 0, 1_010_001),
        Err(AnswerError::Closed),
        "during the reveal"
    );
}

#[test]
fn round_ends_with_leaderboard_then_scores_reset() {
    let mut g = game();
    let a = player(&mut g);
    let b = player(&mut g);
    let mut now = 1_000_000;
    // Two questions per round: the leaderboard follows the second reveal.
    for _ in 0..2 {
        assert!(matches!(g.view(a, 0).phase, PhaseView::Question { .. }));
        let seq = seq(&g);
        g.answer(a, seq, 1, now).unwrap();
        now = g.deadline();
        g.tick(now);
        now = g.deadline();
        g.tick(now);
    }
    let v = g.view(b, 0);
    let PhaseView::Leaderboard { top, players, .. } = v.phase else {
        panic!("no leaderboard")
    };
    assert_eq!(players, 1);
    assert_eq!((top[0].id, top[0].score), (a, 2000));
    assert_eq!(v.me.as_ref().unwrap().rank, None);

    g.tick(g.deadline());
    let v = g.view(a, 0);
    assert!(matches!(v.phase, PhaseView::Question { number: 1, .. }));
    assert_eq!(
        (v.me.as_ref().unwrap().score, v.me.as_ref().unwrap().rank),
        (0, None)
    );
}

#[test]
fn known_token_keeps_player_unknown_token_gets_new_one() {
    let mut g = game();
    let (id, token) = g.join(None, 1_000_000).unwrap();
    let token = token.unwrap();
    assert_eq!(g.join(Some(&token), 1_000_000), Some((id, None)));
    let (other, fresh) = g
        .join(Some("stale-from-before-restart"), 1_000_000)
        .unwrap();
    assert_ne!(other, id);
    assert!(fresh.is_some());
    assert_ne!(
        g.view(id, 0).me.as_ref().unwrap().name,
        g.view(other, 0).me.as_ref().unwrap().name
    );
}

#[test]
fn spectators_see_how_many_answered_but_not_what() {
    let mut g = game();
    let (a, b) = (player(&mut g), player(&mut g));
    g.connect(a, 1_000_000);
    g.connect(b, 1_000_000);
    assert_eq!(
        g.tally(),
        Tally {
            answered: 0,
            online: 2
        }
    );
    let seq = seq(&g);
    g.answer(a, seq, 1, 1_000_001).unwrap();
    g.answer(a, seq, 0, 1_000_002).unwrap();
    assert_eq!(
        g.tally(),
        Tally {
            answered: 1,
            online: 2
        },
        "a change is not a second answer"
    );
    let v = g.spectate(0);
    assert!(v.me.is_none());
    assert!(matches!(
        v.phase,
        PhaseView::Question { answered: None, .. }
    ));

    g.tick(g.deadline());
    let PhaseView::Reveal {
        counts,
        answered,
        gained,
        ..
    } = g.spectate(0).phase
    else {
        panic!("not revealing")
    };
    assert_eq!((counts, answered, gained), (&[1, 0, 0][..], None, None));
}

fn questions(n: usize) -> Vec<Question> {
    (0..n)
        .map(|i| {
            parse(&format!(
                "question = \"question {i}\"\nchoices = [\"a\", \"b\"]\nanswer = \"a\"\n\
                 explanation = \"e\"\n"
            ))
            .unwrap()
        })
        .collect()
}

fn long_round(n: usize) -> Game {
    let settings = Settings {
        question_seconds: 10,
        reveal_seconds: 5,
        round_questions: 1000,
        leaderboard_seconds: 20,
        ..Settings::default()
    };
    Game::new(settings, questions(n), 1_000_000)
}

fn open_text(g: &Game) -> String {
    match g.spectate(0).phase {
        PhaseView::Question { text, .. } => text.to_string(),
        _ => panic!("no open question"),
    }
}

/// From one open question to the next.
fn next_question(g: &mut Game) {
    let now = g.deadline();
    assert!(g.tick(now));
    let now = g.deadline();
    assert!(g.tick(now));
}

#[test]
fn points_follow_the_clock() {
    assert_eq!(BASE_POINTS, 500);
    assert_eq!(SPEED_POINTS, 500);
    assert_eq!(points(1000, 11000, 1000), 1000);
    assert_eq!(points(1000, 11000, 3500), 875);
    assert_eq!(points(1000, 11000, 11000), 500);
    assert_eq!(points(1000, 11000, 20000), 500, "late");
    assert_eq!(points(1000, 11000, 0), 1000, "early");
    assert_eq!(points(5, 5, 5), 500, "no time at all");
    assert_eq!(points(0, 3, 1), 833, "rounded down");
    assert_eq!(points(0, u64::MAX, 0), 1000);
}

#[test]
fn the_first_question_opens_at_once() {
    let order = vec![1, 0, 2];
    let g = Game::new_with(Settings::default(), questions(3), 5_000, order);
    assert_eq!(g.deadline(), 25_000);
    assert_eq!(open_text(&g), "question 2", "drawn from the back");
    let view: View = g.spectate(6_000);
    assert_eq!((view.now, view.title, view.online), (6_000, "NixCon Quiz", 0));
    assert!(matches!(
        view.phase,
        PhaseView::Question {
            seq: 1,
            number: 1,
            of: 10,
            started: 5_000,
            ends: 25_000,
            ..
        }
    ));
}

#[test]
fn every_question_is_asked_before_any_repeats() {
    let mut g = long_round(5);
    for _ in 0..4 {
        let mut seen = Vec::new();
        for _ in 0..5 {
            seen.push(open_text(&g));
            next_question(&mut g);
        }
        seen.sort();
        seen.dedup();
        assert_eq!(seen.len(), 5);
    }
}

#[test]
fn no_question_is_asked_twice_in_a_row() {
    let mut g = long_round(2);
    let mut last = open_text(&g);
    for _ in 0..50 {
        next_question(&mut g);
        let text = open_text(&g);
        assert_ne!(text, last);
        last = text;
    }
}

#[test]
fn a_reshuffled_deck_is_rearranged() {
    let mut g = Game::new_with(Settings::default(), questions(2), 0, vec![1, 0]);
    assert_eq!(open_text(&g), "question 0");
    next_question(&mut g);
    assert_eq!(open_text(&g), "question 1");
    let now = g.deadline();
    assert!(g.tick(now));
    // The deck has run out, and the shuffle begins with the last question.
    let now = g.deadline();
    assert!(g.advance_with(false, now, vec![0, 1]));
    assert_eq!(open_text(&g), "question 0");
}

#[test]
fn ties_share_a_place_and_the_next_one_skips() {
    let mut g = game();
    let ids: Vec<PlayerId> = (0..4).map(|_| player(&mut g)).collect();
    let seq = seq(&g);
    g.answer(ids[0], seq, 1, 1_005_000).unwrap();
    g.answer(ids[1], seq, 1, 1_000_000).unwrap();
    g.answer(ids[2], seq, 1, 1_000_000).unwrap();
    g.tick(1_010_000);
    let rank = |id| g.view(id, 0).me.unwrap().rank;
    assert_eq!(rank(ids[1]), Some(1));
    assert_eq!(rank(ids[2]), Some(1));
    assert_eq!(rank(ids[0]), Some(3));
    assert_eq!(rank(ids[3]), None);
}

#[test]
fn the_leaderboard_holds_the_best_ten_by_points_and_name() {
    let mut g = game();
    let ids: Vec<PlayerId> = (0..12).map(|_| player(&mut g)).collect();
    for _ in 0..2 {
        let open = seq(&g);
        let start = g.deadline() - 10_000;
        for (i, id) in ids.iter().enumerate() {
            // Three are equally fast, the others later and later.
            let at = start + 100 * (i as u64).saturating_sub(2);
            g.answer(*id, open, 1, at).unwrap();
        }
        let now = g.deadline();
        g.tick(now);
        let now = g.deadline();
        g.tick(now);
    }
    match g.spectate(0).phase {
        PhaseView::Leaderboard { top, players, .. } => {
            assert_eq!(players, 12);
            assert_eq!(top.len(), 10);
            let ranks: Vec<usize> = top.iter().map(|s| s.rank).collect();
            assert_eq!(ranks, [1, 1, 1, 4, 5, 6, 7, 8, 9, 10]);
            assert!(top[0].name < top[1].name && top[1].name < top[2].name);
            assert_eq!(top[0].score, 2000);
            assert_eq!(top[3].score, 1990);
            assert_eq!(top[9].id, ids[9]);
        }
        _ => panic!("no leaderboard"),
    }
}

#[test]
fn a_fast_game_moves_on_when_everyone_online_answered() {
    let mut g = game();
    assert!(!g.due(true, 1_000_000), "nobody is online");
    let (a, b, away) = (player(&mut g), player(&mut g), player(&mut g));
    g.connect(a, 1_000_000);
    g.connect(b, 1_000_000);
    let open = seq(&g);
    g.answer(a, open, 1, 1_000_001).unwrap();
    g.answer(away, open, 1, 1_000_001).unwrap();
    assert!(!g.due(true, 1_000_001));
    g.answer(b, open, 0, 1_000_002).unwrap();
    assert!(g.due(true, 1_000_002));
    assert!(!g.due(false, 1_000_002));
    assert!(!g.tick(1_000_002));
    assert!(g.advance(true, 1_000_002));
    assert_eq!(g.deadline(), 1_005_002);
}

#[test]
fn players_long_gone_are_forgotten_between_rounds() {
    let settings = Settings {
        question_seconds: 10,
        reveal_seconds: 5,
        round_questions: 1,
        leaderboard_seconds: 3_600,
        ..Settings::default()
    };
    let mut g = Game::new(settings, questions(1), 1_000_000);
    let (gone, gone_token) = g.join(None, 1_000_000).unwrap();
    let (watching, token) = g.join(None, 1_000_000).unwrap();
    let (recent, recent_token) = g.join(None, 1_100_000).unwrap();
    g.connect(watching, 1_000_000);
    for _ in 0..3 {
        let now = g.deadline();
        assert!(g.tick(now));
    }
    // The leaderboard ended an hour and 15 seconds after the first two came.
    assert_eq!(g.deadline(), 1_000_000 + 3_615_000 + 10_000);
    assert_eq!(g.player_for(&gone_token.unwrap()), None);
    assert_eq!(g.view(gone, 0).me.unwrap().name, "");
    assert_eq!(g.player_for(&token.unwrap()), Some(watching));
    assert_eq!(g.player_for(&recent_token.unwrap()), Some(recent));
    assert_ne!(g.view(watching, 0).me.unwrap().name, "");
}

#[test]
fn pages_are_counted() {
    let mut g = game();
    let a = player(&mut g);
    assert_eq!(g.connections(a), 0);
    g.connect(a, 1_000_000);
    g.connect(a, 1_000_000);
    assert_eq!(g.connections(a), 2);
    g.disconnect(a, 1_000_001);
    assert_eq!((g.connections(a), g.tally().online), (1, 1));
    g.disconnect(a, 1_000_002);
    assert_eq!((g.connections(a), g.tally().online), (0, 0));
    g.connect(999, 1_000_003);
    assert_eq!(g.tally().online, 0, "nobody has this number");
}

#[test]
fn strangers_cannot_answer() {
    let mut g = game();
    let open = seq(&g);
    assert_eq!(g.answer(999, open, 1, 1_000_001), Err(AnswerError::Closed));
    assert_eq!(
        g.answer(999, open, 3, 1_000_001),
        Err(AnswerError::InvalidChoice)
    );
}

#[test]
fn what_chance_decides_can_be_given() {
    let mut g = game();
    let joined = g.join_with(Some("unknown"), 1_000_000, 0xabc, "Lazy Hash".to_string());
    assert_eq!(
        joined,
        Some((1, Some("00000000000000000000000000000abc".to_string())))
    );
    assert_eq!(g.view(1, 0).me.unwrap().name, "Lazy Hash");
    let again = g.join_with(
        Some("00000000000000000000000000000abc"),
        1_000_000,
        7,
        "Pure Flake".to_string(),
    );
    assert_eq!(again, Some((1, None)));
    assert!(g.can_join());
}

#[test]
fn tokens_and_names_differ() {
    let mut g = game();
    let mut tokens = Vec::new();
    let mut names = Vec::new();
    for _ in 0..700 {
        let (id, token) = g.join(None, 1_000_000).unwrap();
        tokens.push(token.unwrap());
        names.push(g.view(id, 0).me.unwrap().name.to_string());
    }
    for token in &tokens {
        assert_eq!(token.len(), 32);
        assert!(token.chars().all(|c| c.is_ascii_hexdigit()));
    }
    tokens.sort();
    tokens.dedup();
    names.sort();
    names.dedup();
    assert_eq!((tokens.len(), names.len()), (700, 700));
}

#[test]
fn a_full_game_turns_strangers_away() {
    let mut g = game();
    let (first, token) = g.join(None, 1_000_000).unwrap();
    for n in 1..20_000u128 {
        let joined = g.join_with(None, 1_000_000, n, format!("player {n}"));
        assert!(joined.is_some());
    }
    assert_eq!(g.join(None, 1_000_000), None);
    assert_eq!(g.join(token.as_deref(), 1_000_000), Some((first, None)));
}

#[test]
fn times_that_do_not_fit_are_noticed() {
    assert!(Game::fits(0, u64::MAX / 1000));
    assert!(!Game::fits(1000, u64::MAX / 1000));
    assert!(!Game::fits(0, u64::MAX));
    let g = game();
    assert!(g.can_advance(1_010_000));
    assert!(!g.can_advance(u64::MAX - 1));
}

#[test]
fn the_counts_add_up_to_the_answers() {
    let mut g = game();
    let ids: Vec<PlayerId> = (0..5).map(|_| player(&mut g)).collect();
    let open = seq(&g);
    for (i, id) in ids.iter().enumerate().skip(1) {
        g.answer(*id, open, i % 3, 1_000_001).unwrap();
    }
    g.tick(1_010_000);
    match g.spectate(0).phase {
        PhaseView::Reveal { counts, .. } => {
            assert_eq!(counts, [1, 2, 1]);
            assert_eq!(counts.iter().sum::<u32>() as usize, g.tally().answered);
        }
        _ => panic!("not revealing"),
    }
}

#[test]
fn an_open_question_shows_the_same_whatever_is_right() {
    let with_answer = |answer: &str| {
        let q = parse(&format!(
            "question = \"q\"\nchoices = [\"a\", \"b\"]\nanswer = \"{answer}\"\n\
             explanation = \"{answer}\"\n"
        ))
        .unwrap();
        let mut g = Game::new(Settings::default(), vec![q], 1_000_000);
        g.join_with(None, 1_000_000, 1, "Lazy Hash".to_string());
        g.join_with(None, 1_000_000, 2, "Pure Flake".to_string());
        let open = seq(&g);
        g.answer(2, open, if answer == "a" { 0 } else { 1 }, 1_000_001)
            .unwrap();
        let urls = nixcon_quiz::web::normal();
        nixcon_quiz::html::game(&g.view(1, 1_000_002), &urls).into_string()
    };
    assert_eq!(with_answer("a"), with_answer("b"));
}

#[test]
fn a_tick_changes_a_player_only_so_far() {
    let mut g = game();
    let (a, b) = (player(&mut g), player(&mut g));
    g.connect(a, 1_000_000);
    let state = |g: &Game| {
        let view = g.view(a, 0);
        let me = view.me.unwrap();
        (me.score, me.rank, me.name.to_string(), view.online)
    };
    let (_, _, name, _) = state(&g);
    let mut score = 0;
    for _ in 0..2 {
        let open = seq(&g);
        let at = g.deadline() - 5_000;
        g.answer(a, open, 1, at).unwrap();
        g.answer(b, open, 0, at).unwrap();
        let now = g.deadline();
        g.tick(now);
        // The reveal adds the gain that it shows.
        assert_eq!(result(&g, a), (Some(1), Some(750)));
        assert_eq!(result(&g, b), (Some(0), None));
        score += 750;
        assert_eq!(state(&g), (score, Some(1), name.clone(), 1));
        // What follows leaves points and rank alone.
        let now = g.deadline();
        g.tick(now);
        assert_eq!(state(&g), (score, Some(1), name.clone(), 1));
    }
    assert!(matches!(
        g.spectate(0).phase,
        PhaseView::Leaderboard { .. }
    ));
    let now = g.deadline();
    g.tick(now);
    assert_eq!(state(&g), (0, None, name, 1));
}

#[test]
fn a_reveal_counts_the_own_pick() {
    let mut g = game();
    let (right, wrong) = (player(&mut g), player(&mut g));
    let open = seq(&g);
    g.answer(right, open, 1, 1_000_001).unwrap();
    g.answer(wrong, open, 1, 1_000_001).unwrap();
    g.answer(wrong, open, 2, 1_000_002).unwrap();
    g.tick(1_010_000);
    for (id, pick) in [(right, 1), (wrong, 2)] {
        match g.view(id, 0).phase {
            PhaseView::Reveal {
                choices,
                correct,
                counts,
                answered,
                gained,
                ..
            } => {
                assert_eq!(answered, Some(pick), "the last answer counts");
                assert_eq!(counts[pick], 1);
                assert_eq!(counts.len(), choices.len());
                assert_eq!(gained.is_some(), answered == Some(correct));
            }
            _ => panic!("not revealing"),
        }
    }
}

#[test]
fn a_known_token_is_welcome_in_any_state() {
    let mut g = game();
    let (id, token) = g.join(None, 1_000_000).unwrap();
    let token = token.unwrap();
    let name = g.view(id, 0).me.unwrap().name.to_string();
    for _ in 0..6 {
        assert_eq!(g.player_for(&token), Some(id));
        assert_eq!(g.join(Some(&token), g.deadline()), Some((id, None)));
        assert_eq!(g.view(id, 0).me.unwrap().name, name);
        let now = g.deadline();
        g.tick(now);
    }
    assert_eq!(g.player_for("unknown"), None);
    assert!(matches!(g.join(Some("unknown"), 0), Some((_, Some(_)))));
}
