//! Replies, cookies, addresses and rooms.

use nixcon_quiz::game::{Game, PhaseView, PlayerId, Settings, Tally};
use nixcon_quiz::html::{game, page, spectate_game, spectate_page};
use nixcon_quiz::quiz::{parse, Question};
use nixcon_quiz::slides::Slide;
use nixcon_quiz::web::{
    cookie, fast, file_headers, full, html_response, join_url, normal, not_found, qr, sends_first,
    set_cookie, static_file, token, vendor, version, wait, Reply, Room, Slides, Step, Wake, CSP,
    FAST_COOKIE, FOREVER, NORMAL_COOKIE,
};
use std::sync::Arc;

const START: u64 = 1_000_000;

fn question() -> Question {
    parse(
        "question = \"q\"\nchoices = [\"a\", \"b\"]\nanswer = \"b\"\nexplanation = \"e\"\n",
    )
    .unwrap()
}

fn settings() -> Settings {
    Settings {
        question_seconds: 10,
        reveal_seconds: 5,
        round_questions: 2,
        leaderboard_seconds: 20,
        ..Settings::default()
    }
}

fn normal_room() -> Room {
    let game = Game::new(settings(), vec![question()], START);
    Room::new(game, normal(), NORMAL_COOKIE, false)
}

fn fast_room() -> Room {
    let game = Game::new(settings(), vec![question()], START);
    Room::new(game, fast(), FAST_COOKIE, true)
}

fn header<'a>(reply: &'a Reply, name: &str) -> Option<&'a str> {
    reply
        .headers
        .iter()
        .find(|h| h.0 == name)
        .map(|h| h.1.as_str())
}

fn text(reply: &Reply) -> (u16, Option<&str>) {
    (reply.status, reply.body.as_deref())
}

/// The cookie header that a browser sends after this reply.
fn kept(reply: &Reply) -> Vec<String> {
    let set = header(reply, "set-cookie").unwrap();
    vec![set.split(';').next().unwrap().to_string()]
}

/// Someone who watches: their cookies and their number.
fn arrival(room: &mut Room, now: u64) -> (Vec<String>, PlayerId) {
    let (id, token) = room.arrive(&Vec::new(), now).unwrap();
    (vec![format!("{}={}", room.cookie, token.unwrap())], id)
}

fn seq(room: &Room) -> u64 {
    match room.game.spectate(0).phase {
        PhaseView::Question { seq, .. } => seq,
        _ => panic!("no open question"),
    }
}

#[test]
fn rooms_live_at_their_own_addresses() {
    let (n, f) = (normal(), fast());
    assert_eq!(
        [n.page, n.spectate, n.qr, n.events, n.spectate_events, n.answer],
        [
            "/",
            "/spectate",
            "/qr.svg",
            "/api/events",
            "/api/events/spectate",
            "/api/answer"
        ]
    );
    assert_eq!(
        [f.page, f.spectate, f.qr, f.events, f.spectate_events, f.answer],
        [
            "/fast",
            "/fast/spectate",
            "/fast/qr.svg",
            "/api/events/fast",
            "/api/events/fast/spectate",
            "/api/answer/fast"
        ]
    );
}

#[test]
fn simple_replies() {
    assert_eq!(text(&full()), (503, Some("the quiz is full")));
    assert_eq!(text(&not_found()), (404, None));
    let page = html_response("<p>".to_string());
    assert_eq!(text(&page), (200, Some("<p>")));
    assert_eq!(header(&page, "content-type"), Some("text/html; charset=utf-8"));
    assert_eq!(header(&page, "cache-control"), Some("no-store"));
    assert_eq!(
        header(&page, "content-security-policy"),
        Some("default-src 'self'; frame-ancestors 'none'")
    );
    assert_eq!(CSP, "default-src 'self'; frame-ancestors 'none'");
    let file = static_file("text/css; charset=utf-8", "no-cache", "a{}".to_string());
    assert_eq!(text(&file), (200, Some("a{}")));
    assert_eq!(header(&file, "content-type"), Some("text/css; charset=utf-8"));
    assert_eq!(
        file_headers("font/woff2", FOREVER),
        [
            ("content-type", "font/woff2".to_string()),
            (
                "cache-control",
                "public, max-age=31536000, immutable".to_string()
            ),
        ]
    );
}

#[test]
fn vendored_files_have_their_types() {
    assert_eq!(
        vendor("htmx-2.0.11.min.js"),
        Some("text/javascript; charset=utf-8")
    );
    assert_eq!(
        vendor("htmx-ext-sse-2.2.4.min.js"),
        Some("text/javascript; charset=utf-8")
    );
    assert_eq!(
        vendor("press-start-2p-latin-ext-400-normal.woff2"),
        Some("font/woff2")
    );
    assert_eq!(
        vendor("ibm-plex-mono-latin-600-normal.woff2"),
        Some("font/woff2")
    );
    assert_eq!(vendor("nixcon-2026-icon.svg"), Some("image/svg+xml"));
    assert_eq!(vendor("nixcon-2026-cloud.png"), Some("image/png"));
    assert_eq!(vendor("../secret"), None);
}

#[test]
fn cookies_are_set_and_read_back() {
    assert_eq!(
        cookie("nixcon_quiz", "0f"),
        "nixcon_quiz=0f; Path=/; Max-Age=1209600; HttpOnly; SameSite=Strict"
    );
    let mut reply = full();
    set_cookie(&mut reply, "nixcon_quiz", "0f");
    assert_eq!(
        token(&kept(&reply), "nixcon_quiz"),
        Some("0f".to_string())
    );
}

#[test]
fn the_right_cookie_is_found() {
    let read = |headers: &[&str], name: &str| {
        token(&headers.iter().map(|h| h.to_string()).collect(), name)
    };
    assert_eq!(read(&[], "a"), None);
    assert_eq!(read(&["a=1; b=2"], "b"), Some("2".to_string()));
    assert_eq!(read(&["ab=1;  a=2 ;a=3"], "a"), Some("2".to_string()));
    assert_eq!(read(&["a", ";;", "a=x=y"], "a"), Some("x=y".to_string()));
    assert_eq!(read(&["a="], "a"), Some(String::new()));
    assert_eq!(read(&["a =1"], "a"), None, "the name is compared as it is");
    let both = &["nixcon_quiz=1; nixcon_quiz_fast=2"];
    assert_eq!(read(both, NORMAL_COOKIE), Some("1".to_string()));
    assert_eq!(read(both, FAST_COOKIE), Some("2".to_string()));
}

#[test]
fn the_join_address_is_the_public_one_or_the_host() {
    assert_eq!(
        join_url(Some("https://quiz.example//"), Some("10.0.0.1"), "/fast"),
        "https://quiz.example/fast"
    );
    assert_eq!(join_url(None, Some("10.0.0.1:80"), "/"), "http://10.0.0.1:80/");
    assert_eq!(join_url(None, None, "/fast"), "http://localhost/fast");
}

#[test]
fn versions_name_process_and_change() {
    assert_eq!(version(0x1f, 3), "1f-3");
    assert_eq!(version(0, 0), "0-0");
    assert_eq!(version(u64::MAX, 12), "ffffffffffffffff-12");
    assert_ne!(version(1, 11), version(11, 1));
    assert!(!sends_first(Some("1f-3"), 0x1f, 3));
    assert!(sends_first(Some("1f-3"), 0x1f, 4));
    assert!(sends_first(Some("1f-3"), 0x2f, 3));
    assert!(sends_first(None, 0x1f, 3));
}

#[test]
fn the_clock_sleeps_until_the_deadline() {
    assert_eq!(wait(1500, 1000), 500);
    assert_eq!(wait(1000, 1000), 1);
    assert_eq!(wait(0, 1000), 1);
}

#[test]
fn the_first_page_issues_a_cookie_and_the_next_keeps_it() {
    let mut room = normal_room();
    let first = room.index(0x1f, &Vec::new(), START);
    assert_eq!(first.status, 200);
    let cookies = kept(&first);
    assert_eq!(cookies[0].len(), "nixcon_quiz=".len() + 32);
    let id = room
        .game
        .player_for(&cookies[0]["nixcon_quiz=".len()..])
        .unwrap();

    let second = room.index(0x1f, &cookies, START);
    assert_eq!(header(&second, "set-cookie"), None);
    let expected = page(&room.game.view(id, START), &normal(), "1f-0").into_string();
    assert_eq!(second.body, Some(expected));

    let stranger = room.index(0x1f, &vec!["nixcon_quiz=stale".to_string()], START);
    assert_ne!(kept(&stranger), cookies);
}

#[test]
fn a_page_for_nobody_says_the_quiz_is_full() {
    let room = normal_room();
    assert_eq!(
        text(&room.index_page(1, None, START)),
        (503, Some("the quiz is full"))
    );
}

#[test]
fn streams_count_as_online_while_they_live() {
    let mut room = normal_room();
    let (cookies, id) = arrival(&mut room, START);
    assert_eq!(room.game.tally().online, 1);
    let (again, new_token) = room.arrive(&cookies, START).unwrap();
    assert_eq!((again, new_token), (id, None));
    assert_eq!(room.game.tally().online, 1);
    room.leave(id, START);
    assert_eq!(room.game.tally().online, 1, "one page is still open");
    room.leave(id, START);
    assert_eq!(room.game.tally().online, 0);
    assert_eq!(
        room.fragment(id, START),
        game(&room.game.view(id, START), &normal()).into_string()
    );
}

#[test]
fn answers_are_replied_to() {
    let mut room = normal_room();
    let (cookies, _) = arrival(&mut room, START);
    let open = seq(&room);
    assert_eq!(
        text(&room.answer(&Vec::new(), open, 1, START)),
        (401, Some("unknown player"))
    );
    assert_eq!(
        text(&room.answer(&vec!["nixcon_quiz=stale".to_string()], open, 1, START)),
        (401, Some("unknown player"))
    );
    assert_eq!(
        text(&room.answer(&cookies, open + 1, 1, START)),
        (409, Some("question closed"))
    );
    assert_eq!(
        text(&room.answer(&cookies, open, 2, START)),
        (400, Some("no such choice"))
    );
    let halfway = room.answer(&cookies, open, 1, START + 5_000);
    assert_eq!(text(&halfway), (204, None));
    assert_eq!(header(&halfway, "x-points"), Some("750"));
    let again = room.answer(&cookies, open, 1, START + 9_000);
    assert_eq!(
        header(&again, "x-points"),
        Some("750"),
        "the same pick keeps its time"
    );
    assert_eq!(room.changes, 0, "the normal game waits for its clock");
    assert_eq!(
        text(&room.answer(&cookies, open, 1, START + 10_000)),
        (409, Some("question closed"))
    );
    assert_eq!(room.changes, 1, "the deadline had passed");
}

#[test]
fn a_fast_room_closes_once_everyone_online_answered() {
    let mut room = fast_room();
    let (first, _) = arrival(&mut room, START);
    let (_, second) = arrival(&mut room, START);
    let open = seq(&room);
    room.answer(&first, open, 1, START + 1_000);
    assert_eq!(room.changes, 0);
    // The one who had not answered leaves.
    room.leave(second, START + 2_000);
    assert_eq!(room.changes, 1);
    assert!(matches!(
        room.game.spectate(0).phase,
        PhaseView::Reveal { .. }
    ));

    let mut room = fast_room();
    let (only, _) = arrival(&mut room, START);
    let open = seq(&room);
    let reply = room.answer(&only, open, 1, START);
    assert_eq!(header(&reply, "x-points"), Some("1000"));
    assert_eq!(room.changes, 1);
}

#[test]
fn the_clock_moves_rooms_along() {
    let mut room = normal_room();
    assert!(room.can_move(START));
    assert!(!room.can_move(u64::MAX));
    room.advance(START + 9_999);
    assert_eq!(room.changes, 0);
    room.advance(START + 10_000);
    assert_eq!(room.changes, 1);
}

#[test]
fn the_livestream_screen_makes_no_player() {
    let room = normal_room();
    let reply = room.spectate("http://x/", Some(None), START);
    assert_eq!(header(&reply, "set-cookie"), None);
    let expected = spectate_page(
        &room.game.spectate(START),
        room.game.tally(),
        &normal(),
        "http://x/",
        Some(None),
    )
    .into_string();
    assert_eq!(reply.body, Some(expected));
    assert_eq!(room.game.tally().online, 0);
}

#[test]
fn the_livestream_is_woken_for_a_reason() {
    let mut room = normal_room();
    let (message, tally) = room.refresh(START);
    assert_eq!(message.event, None);
    assert_eq!(
        message.data,
        spectate_game(&room.game.spectate(START), tally).into_string()
    );
    assert!(matches!(room.woken(tally, Wake::Time, None), Step::Wait));
    assert!(matches!(
        room.woken(tally, Wake::Changed, None),
        Step::Refresh
    ));
    assert!(matches!(room.woken(tally, Wake::Closed, None), Step::End));

    arrival(&mut room, START);
    match room.woken(tally, Wake::Time, None) {
        Step::Send(message, tally) => {
            assert_eq!(message.event, Some("tally"));
            assert_eq!(message.data, "0 answered · 1 online");
            assert_eq!(
                tally,
                Tally {
                    answered: 0,
                    online: 1
                }
            );
        }
        _ => panic!("the count changed"),
    }
    let current = slide("x", 1);
    match room.woken(tally, Wake::Slide, Some(&current)) {
        Step::Send(message, same) => {
            assert_eq!(message.event, Some("slide"));
            assert_eq!(message.data, "<img src=\"/slides/x-1\" alt=\"\">");
            assert_eq!(same, tally);
        }
        _ => panic!("there is a slide"),
    }
}

#[test]
fn qr_codes_are_images() {
    let reply = qr("http://x/");
    assert_eq!(reply.status, 200);
    assert_eq!(header(&reply, "content-type"), Some("image/svg+xml"));
    assert_eq!(header(&reply, "cache-control"), Some("no-cache"));
    assert!(reply.body.unwrap().starts_with("<svg "));
    assert_eq!(text(&qr(&"x".repeat(5000))), (404, None));
}

fn slide(file: &str, page: u32) -> Arc<Slide> {
    Arc::new(Slide {
        name: format!("{file}-{page}"),
        alt: String::new(),
        order: (file.to_string(), page),
        content_type: "image/png",
        body: Vec::new(),
    })
}

#[test]
fn slides_move_on_with_every_scan() {
    let mut slides = Slides::new();
    assert!(!slides.update(Vec::new()), "still nothing to show");
    assert!(slides.update(vec![slide("a", 1), slide("b", 1)]));
    assert_eq!(slides.shown.as_ref().unwrap().name, "a-1");
    assert!(slides.update(vec![slide("b", 1)]));
    assert_eq!(slides.shown.as_ref().unwrap().name, "b-1");
    assert!(!slides.update(vec![slide("b", 1)]), "the only slide stays");
    assert!(slides.find("b-1").is_some());
    assert!(slides.find("a-1").is_none());
    assert!(slides.update(Vec::new()));
    assert!(slides.shown.is_none());
}

#[test]
fn a_pick_alone_does_not_move_the_room() {
    let mut room = fast_room();
    let (cookies, id) = arrival(&mut room, START);
    let open = seq(&room);
    assert_eq!(
        text(&room.pick(&Vec::new(), open, 1, START)),
        (401, Some("unknown player"))
    );
    let reply = room.pick(&cookies, open, 1, START + 5_000);
    assert_eq!(header(&reply, "x-points"), Some("750"));
    assert_eq!(room.changes, 0);
    assert!(room.game.due(true, START + 5_000));
    assert!(matches!(
        room.game.view(id, START).phase,
        PhaseView::Question {
            answered: Some(1),
            pick_points: Some(750),
            ..
        }
    ));
}
