//! Pages and fragments.

use nixcon_quiz::game::{Game, Me, PhaseView, Settings, Standing, Tally, View};
use nixcon_quiz::html::{
    game, page, qr_svg, slide, spectate_game, spectate_page, store_path, svg, tally_text, Urls,
};
use nixcon_quiz::quiz::parse;
use nixcon_quiz::slides::Slide;

fn a_game() -> Game {
    let question = parse(
        r#"
            question = "Which one?"
            choices = ["wrong", "right"]
            answer = "right"
            explanation = "Because it is the secret."
            "#,
    )
    .unwrap();
    Game::new(Settings::default(), vec![question], 1_000_000)
}

const URLS: Urls = Urls {
    page: "/",
    spectate: "/spectate",
    qr: "/qr.svg",
    events: "/api/events",
    spectate_events: "/api/events/spectate",
    answer: "/api/answer",
};

const SLOP: &str = "<span class=\"slop\"><span class=\"warning\">warning:</span> this whole site \
                    is LLM-slopped, answers included</span>";

const LOGO: &str = "<img class=\"logo\" src=\"/vendor/nixcon-2026-icon.svg\" alt=\"\">";

#[test]
fn open_question_page_does_not_contain_the_answer() {
    let mut g = a_game();
    let (id, _) = g.join(None, 1_000_000).unwrap();
    let page = page(&g.view(id, 1_000_000), &URLS, "v").into_string();
    assert!(page.contains("Which one?"));
    assert!(!page.contains("secret"), "explanation leaked");
    assert!(!page.contains("correct"), "correct choice marked");

    g.tick(g.deadline());
    let reveal = game(&g.view(id, g.deadline()), &URLS).into_string();
    assert!(reveal.contains("secret"));
    let correct = reveal.find(r#"class="choice revealed correct""#).unwrap();
    let row = reveal[correct..].split("</div>").next().unwrap();
    assert!(row.contains(">right<"), "{row}");
}

#[test]
fn saved_answer_is_checked_when_the_page_is_rendered_again() {
    let mut g = a_game();
    let (id, _) = g.join(None, 1_000_000).unwrap();
    let seq = match g.view(id, 0).phase {
        PhaseView::Question { seq, .. } => seq,
        _ => unreachable!(),
    };
    g.answer(id, seq, 1, 1_000_001).unwrap();
    let page = page(&g.view(id, 1_000_002), &URLS, "v").into_string();
    assert!(page.contains(r#"value="1" checked"#), "{page}");
    assert!(!page.contains(r#"value="0" checked"#));
}

fn me(rank: Option<usize>) -> Option<Me<'static>> {
    Some(Me {
        id: 7,
        name: "Pure Flake",
        score: 550,
        rank,
    })
}

fn header(phase: &str, standing: &str) -> String {
    format!(
        "<div class=\"view\" data-now=\"1000\" data-phase=\"{phase}\"><header><div \
         class=\"brand\">{LOGO}<h1>T &amp; &quot;Q&quot;</h1></div><div id=\"me\"><span \
         id=\"name\">Pure Flake</span><span id=\"standing\">{standing}</span></div></header>"
    )
}

fn footer() -> String {
    format!("</main><footer><span>3 online</span>{SLOP}</footer></div>")
}

#[test]
fn leaderboard_fragment_is_written_out() {
    let top = [
        Standing {
            id: 3,
            rank: 1,
            name: "Lazy Hash".to_string(),
            score: 900,
        },
        Standing {
            id: 7,
            rank: 2,
            name: "Pure Flake".to_string(),
            score: 550,
        },
    ];
    let view = View {
        now: 1000,
        title: "T & \"Q\"",
        online: 3,
        me: me(Some(2)),
        phase: PhaseView::Leaderboard {
            ends: 2500,
            top: &top,
            players: 2,
        },
    };
    let expected = format!(
        "{}<div id=\"timer\" aria-hidden=\"true\"><div id=\"bar\"></div></div><main><p \
         class=\"label\">/nix/var/nix/profiles/leaderboard</p><h2 class=\"question\">Round \
         over</h2><ol class=\"leaderboard\"><li class=\"\"><span class=\"rank\">#1</span><span \
         class=\"who\">Lazy Hash</span><span class=\"points\">900</span></li><li \
         class=\"me\"><span class=\"rank\">#2</span><span class=\"who\">Pure Flake</span><span \
         class=\"points\">550</span></li></ol><p class=\"status\">You finished #2 of 2 with 550 \
         points</p><p class=\"countdown\" data-ends=\"2500\" data-label=\"next round in {{}}s\">\
         next round in 2s</p>{}",
        header("leaderboard", "550 pts · #2"),
        footer(),
    );
    assert_eq!(game(&view, &URLS).into_string(), expected);
}

#[test]
fn leaderboard_without_points_says_so() {
    let view = View {
        now: 1000,
        title: "T & \"Q\"",
        online: 3,
        me: me(None),
        phase: PhaseView::Leaderboard {
            ends: 1000,
            top: &[],
            players: 0,
        },
    };
    let html = game(&view, &URLS).into_string();
    assert!(html.contains("<span id=\"standing\">550 pts</span>"));
    assert!(html.contains("<p class=\"status\">Nobody scored this round.</p>"));
    assert!(html.contains("<p class=\"status\">No points for you this round. Next one!</p>"));
    assert!(html.contains(">next round in 0s</p>"));
}

#[test]
fn question_fragment_is_written_out() {
    let choices = ["1 < 2".to_string(), "b".to_string()];
    let view = View {
        now: 6000,
        title: "Quiz",
        online: 1,
        me: me(None),
        phase: PhaseView::Question {
            seq: 4,
            number: 2,
            of: 10,
            text: "Which one?",
            choices: &choices,
            started: 1000,
            ends: 11000,
            answered: Some(0),
            pick_points: Some(875),
        },
    };
    let expected = "<p class=\"label\">/nix/store/3d2kvdll-question-2-of-10</p><h2 \
        class=\"question\">Which one?</h2><form id=\"answer\" hx-post=\"/api/answer\" \
        hx-trigger=\"change\" hx-swap=\"none\" hx-sync=\"this:queue last\" data-saved=\"0\"><input \
        type=\"hidden\" name=\"seq\" value=\"4\"><fieldset class=\"choices\" \
        data-closes=\"11000\"><label class=\"choice\"><input type=\"radio\" name=\"choice\" \
        value=\"0\" checked><span class=\"letter\">A</span><span class=\"text\">1 &lt; 2</span>\
        </label><label class=\"choice\"><input type=\"radio\" name=\"choice\" value=\"1\"><span \
        class=\"letter\">B</span><span class=\"text\">b</span></label></fieldset><p class=\"worth\" \
        data-started=\"1000\" data-ends=\"11000\" data-base=\"500\" data-speed=\"500\" \
        data-picked=\"875\"><span class=\"value\">+875</span><span class=\"live\">for a right \
        answer now</span><span class=\"locked\">if your pick is right</span><span \
        class=\"rule\">500 for right + up to 500 for speed</span></p><p class=\"status\"><span \
        class=\"unpicked\">pick an answer</span><span class=\"picked\">you can change your answer \
        until the time runs out; the speed bonus then counts from the new pick</span><span \
        class=\"expired\">time's up</span><span class=\"notice\"></span></p></form><p \
        class=\"countdown big\" data-ends=\"11000\" data-label=\"{}s\">5s</p>";
    let html = game(&view, &URLS).into_string();
    let main = html
        .split("<main>")
        .nth(1)
        .unwrap()
        .split("</main>")
        .next()
        .unwrap();
    assert_eq!(main, expected);
    assert!(html.contains(
        "<div id=\"timer\" aria-hidden=\"true\"><div id=\"bar\" data-started=\"1000\" \
         data-ends=\"11000\"></div></div>"
    ));
}

#[test]
fn without_a_pick_the_worth_counts_down_and_the_form_closes() {
    let choices = ["a".to_string(), "b".to_string()];
    let question = |now: u64| {
        let view = View {
            now,
            title: "Quiz",
            online: 1,
            me: me(None),
            phase: PhaseView::Question {
                seq: 1,
                number: 1,
                of: 10,
                text: "q",
                choices: &choices,
                started: 0,
                ends: 10000,
                answered: None,
                pick_points: None,
            },
        };
        game(&view, &URLS).into_string()
    };
    let halfway = question(5000);
    assert!(halfway.contains("<span class=\"value\">+750</span>"));
    assert!(!halfway.contains("data-picked"));
    assert!(!halfway.contains("data-saved"));
    assert!(!halfway.contains(" disabled"));
    assert!(halfway.contains(">5s</p>"));
    let late = question(10000);
    assert!(late.contains("data-closes=\"10000\" disabled>"));
    assert!(late.contains("<span class=\"value\">+500</span>"));
    assert!(question(9001).contains(">1s</p>"), "seconds are rounded up");
}

fn revealed(answered: Option<usize>, gained: Option<u64>) -> String {
    let choices = ["a".to_string(), "b".to_string(), "c".to_string()];
    let view = View {
        now: 1000,
        title: "Quiz",
        online: 3,
        me: me(None),
        phase: PhaseView::Reveal {
            number: 1,
            of: 2,
            text: "",
            choices: &choices,
            ends: 3000,
            correct: 1,
            counts: &[1, 2, 0],
            explanation: "so > that",
            answered,
            gained,
        },
    };
    game(&view, &URLS).into_string()
}

#[test]
fn reveal_fragment_is_written_out() {
    let html = revealed(Some(1), Some(750));
    let main = html
        .split("<main>")
        .nth(1)
        .unwrap()
        .split("</main>")
        .next()
        .unwrap();
    let row = |class: &str, count: u32, letter: char, text: &str| {
        format!(
            "<div class=\"choice revealed{class}\"><progress class=\"share\" value=\"{count}\" \
             max=\"3\"></progress><span class=\"letter\">{letter}</span><span \
             class=\"text\">{text}</span><span class=\"count\">{count}</span></div>"
        )
    };
    let expected = format!(
        "<p class=\"label\">/nix/store/5r8422jw-question-1-of-2</p><h2 class=\"question\"></h2><p \
         class=\"result good\"><span class=\"headline\">+750</span><span class=\"log\">build \
         succeeded: 500 for right + 250 for speed</span></p><div \
         class=\"choices\">{}{}{}</div><p class=\"explanation\">so &gt; that</p><p \
         class=\"countdown\" data-ends=\"3000\" data-label=\"next question in {{}}s\">next question \
         in 2s</p>",
        row("", 1, 'A', "a"),
        row(" correct", 2, 'B', "b"),
        row("", 0, 'C', "c"),
    );
    assert_eq!(main, expected);
}

#[test]
fn reveal_says_what_became_of_the_answer() {
    let none = revealed(None, None);
    assert!(none.contains(
        "<p class=\"result none\"><span class=\"headline\">no answer</span><span \
         class=\"log\">error: evaluation timed out</span></p>"
    ));
    assert!(!none.contains(" wrong\">"));
    let bad = revealed(Some(0), None);
    assert!(bad.contains(
        "<p class=\"result bad\"><span class=\"headline\">wrong</span><span class=\"log\">error: \
         builder for 'answer.drv' failed</span></p>"
    ));
    assert!(bad.contains("<div class=\"choice revealed wrong\"><progress class=\"share\" value=\"1\""));
}

#[test]
fn whole_page_wraps_the_fragment() {
    let view = View {
        now: 1000,
        title: "a<b",
        online: 3,
        me: me(None),
        phase: PhaseView::Leaderboard {
            ends: 1000,
            top: &[],
            players: 0,
        },
    };
    let fragment = game(&view, &URLS).into_string();
    let expected = format!(
        "<!DOCTYPE html><html lang=\"en\"><head><meta charset=\"utf-8\"><meta name=\"viewport\" \
         content=\"width=device-width, initial-scale=1\"><meta name=\"color-scheme\" \
         content=\"light\"><meta name=\"htmx-config\" \
         content=\"{{&quot;includeIndicatorStyles&quot;:false,&quot;allowEval&quot;:false,&quot;\
         attributesToSettle&quot;:[&quot;class&quot;]}}\"><title>a&lt;b</title><link \
         rel=\"stylesheet\" href=\"/style.css\"><script src=\"/vendor/htmx-2.0.11.min.js\" \
         defer></script><script src=\"/vendor/htmx-ext-sse-2.2.4.min.js\" defer></script><script \
         src=\"/clock.js\" defer></script></head><body><div id=\"game\" hx-ext=\"sse\" \
         sse-connect=\"/api/events?seen=1f-3\" sse-swap=\"message\">{fragment}</div><p \
         id=\"connection\"></p></body></html>"
    );
    assert_eq!(page(&view, &URLS, "1f-3").into_string(), expected);
}

#[test]
fn spectator_sees_the_choices_and_the_count() {
    let choices = ["a".to_string(), "b".to_string()];
    let view = View {
        now: 0,
        title: "Quiz",
        online: 2,
        me: None,
        phase: PhaseView::Question {
            seq: 1,
            number: 1,
            of: 10,
            text: "",
            choices: &choices,
            started: 0,
            ends: 20000,
            answered: None,
            pick_points: None,
        },
    };
    let tally = Tally {
        answered: 1,
        online: 2,
    };
    let expected = format!(
        "<div class=\"view\" data-now=\"0\" data-phase=\"question\"><header><div \
         class=\"brand\">{LOGO}<h1>Quiz</h1></div><span id=\"tally\" sse-swap=\"tally\">1 answered \
         · 2 online</span></header><div id=\"timer\" aria-hidden=\"true\"><div id=\"bar\" \
         data-started=\"0\" data-ends=\"20000\"></div></div><main><p \
         class=\"label\">/nix/store/5r8422jw-question-1-of-10</p><h2 class=\"question\"></h2><div \
         class=\"choices\"><div class=\"choice\"><span class=\"letter\">A</span><span \
         class=\"text\">a</span></div><div class=\"choice\"><span class=\"letter\">B</span><span \
         class=\"text\">b</span></div></div><p class=\"countdown big\" data-ends=\"20000\" \
         data-label=\"{{}}s\">20s</p></main></div>"
    );
    assert_eq!(spectate_game(&view, tally).into_string(), expected);
}

#[test]
fn spectator_page_says_how_to_join() {
    let view = View {
        now: 0,
        title: "Quiz",
        online: 0,
        me: None,
        phase: PhaseView::Leaderboard {
            ends: 0,
            top: &[],
            players: 0,
        },
    };
    let tally = Tally {
        answered: 0,
        online: 0,
    };
    let at = |join: &str, shown: Option<Option<&Slide>>| {
        spectate_page(&view, tally, &URLS, join, shown).into_string()
    };
    let html = at("https://quiz.example/fast/", None);
    assert!(html.contains("<body class=\"spectate\"><div class=\"stage\" hx-ext=\"sse\" sse-connect=\"/api/events/spectate\"><div id=\"game\" sse-swap=\"message\">"));
    assert!(html.contains("<img class=\"qr\" src=\"/qr.svg\" alt=\"QR code for https://quiz.example/fast/\">"));
    assert!(html.contains("<p class=\"url\">quiz.example/fast</p>"));
    assert!(!html.contains("id=\"slide\""));
    assert!(at("http://http://x//", None).contains("<p class=\"url\">x</p>"));

    let empty = at("http://x", Some(None));
    assert!(empty.contains("<aside id=\"slide\" sse-swap=\"slide\"></aside>"));
    let slide = Slide {
        name: "0.png".to_string(),
        alt: "a \"b\"".to_string(),
        order: ("a.png".to_string(), 1),
        content_type: "image/png",
        body: Vec::new(),
    };
    let shown = at("http://x", Some(Some(&slide)));
    assert!(shown.contains(
        "<aside id=\"slide\" sse-swap=\"slide\"><img src=\"/slides/0.png\" alt=\"a \
         &quot;b&quot;\"></aside>"
    ));
}

#[test]
fn slide_fragment_is_empty_without_slides() {
    assert_eq!(slide(None).into_string(), "");
}

#[test]
fn leaderboard_has_no_count_of_answers() {
    let tally = Tally {
        answered: 4,
        online: 12,
    };
    let leaderboard = PhaseView::Leaderboard {
        ends: 0,
        top: &[],
        players: 0,
    };
    assert_eq!(tally_text(tally, &leaderboard), "12 online");
    let reveal = PhaseView::Reveal {
        number: 1,
        of: 1,
        text: "",
        choices: &[],
        ends: 0,
        correct: 0,
        counts: &[],
        explanation: "",
        answered: None,
        gained: None,
    };
    assert_eq!(tally_text(tally, &reveal), "4 answered · 12 online");
}

#[test]
fn store_paths_hash_the_text() {
    assert_eq!(
        store_path("Which one?", 3, 10),
        "/nix/store/3d2kvdll-question-3-of-10"
    );
    assert_eq!(
        store_path("é <b>", 1, 4294967295),
        "/nix/store/99jga39z-question-1-of-4294967295"
    );
}

#[test]
fn modules_become_squares() {
    assert_eq!(
        svg(2, &vec![true, false, false, true]),
        "<svg xmlns=\"http://www.w3.org/2000/svg\" viewBox=\"0 0 6 6\" \
         shape-rendering=\"crispEdges\"><rect width=\"6\" height=\"6\" \
         fill=\"#fff\"></rect><path d=\"M2 2h1v1h-1zM3 3h1v1h-1z\" fill=\"#2f2f2f\"></path></svg>"
    );
}

#[test]
fn qr_codes_encode_the_url() {
    let svg = qr_svg("http://x/").unwrap();
    // The smallest code has 21 modules; its corner is dark.
    assert!(svg.contains("viewBox=\"0 0 25 25\""));
    assert!(svg.contains("<path d=\"M2 2h1v1h-1zM3 2h1v1h-1z"));
    assert_ne!(svg, qr_svg("http://y/").unwrap());
    assert!(qr_svg(&"x".repeat(5000)).is_none());
}

#[test]
fn any_short_text_has_a_qr_code() {
    assert!(qr_svg("").is_some());
    assert!(qr_svg("HTTP://X/é").is_some());
}
