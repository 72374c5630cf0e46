//! The command line.

use nixcon_quiz::cli::{
    check_line, positive, read_args, serving_line, usage_error, Request, USAGE,
};

fn ask(args: &[&str]) -> Request {
    read_args(&args.iter().map(|a| a.to_string()).collect())
}

fn wrong(args: &[&str]) -> String {
    match ask(args) {
        Request::Wrong(e) => e,
        _ => panic!("accepted"),
    }
}

#[test]
fn defaults_hold_without_options() {
    match ask(&["--questions", "dir"]) {
        Request::Serve {
            dir,
            listen,
            public_url,
            settings,
        } => {
            assert_eq!(dir, "dir");
            assert_eq!(listen, "127.0.0.1:8080");
            assert_eq!(public_url, None);
            assert_eq!(settings.title, "NixCon Quiz");
            assert_eq!(settings.question_seconds, 20);
            assert_eq!(settings.reveal_seconds, 8);
            assert_eq!(settings.round_questions, 10);
            assert_eq!(settings.leaderboard_seconds, 30);
        }
        _ => panic!("not served"),
    }
}

#[test]
fn every_option_is_taken() {
    match ask(&[
        "--listen",
        "[::]:80",
        "--public-url",
        "https://q",
        "--title",
        "--help",
        "--question-seconds",
        "1",
        "--reveal-seconds",
        "+2",
        "--round-questions",
        "4294967295",
        "--leaderboard-seconds",
        "18446744073709551615",
        "--questions",
        "a",
        "--questions",
        "b",
    ]) {
        Request::Serve {
            dir,
            listen,
            public_url,
            settings,
        } => {
            assert_eq!(dir, "b", "the last one counts");
            assert_eq!(listen, "[::]:80");
            assert_eq!(public_url.as_deref(), Some("https://q"));
            assert_eq!(settings.title, "--help");
            assert_eq!(settings.question_seconds, 1);
            assert_eq!(settings.reveal_seconds, 2);
            assert_eq!(settings.round_questions, 4294967295);
            assert_eq!(settings.leaderboard_seconds, 18446744073709551615);
        }
        _ => panic!("not served"),
    }
}

#[test]
fn checking_comes_before_serving() {
    assert!(matches!(
        ask(&["--questions", "a", "--check", "b"]),
        Request::Check(dir) if dir == "b"
    ));
}

#[test]
fn help_is_given_when_asked() {
    assert!(matches!(ask(&["-h"]), Request::Help));
    assert!(matches!(ask(&["--check", "x", "--help", "--bad"]), Request::Help));
}

#[test]
fn wrong_arguments_are_named() {
    assert_eq!(wrong(&[]), "--questions is required");
    assert_eq!(wrong(&["--questions"]), "--questions needs a value");
    assert_eq!(wrong(&["--bad\n", "-h"]), "unknown argument \"--bad\\n\"");
    assert_eq!(
        wrong(&["--question-seconds", "0"]),
        "--question-seconds needs a positive number, got \"0\""
    );
    assert_eq!(
        wrong(&["--round-questions", "4294967296"]),
        "--round-questions needs a positive number, got \"4294967296\""
    );
    assert_eq!(
        wrong(&["--reveal-seconds", "ten"]),
        "--reveal-seconds needs a positive number, got \"ten\""
    );
}

#[test]
fn numbers_are_positive_and_fit() {
    assert_eq!(positive("--n", "7", 10), Ok(7));
    assert_eq!(positive("--n", "10", 10), Ok(10));
    let error = |value: &str| {
        assert_eq!(
            positive("--n", value, 10),
            Err(format!("--n needs a positive number, got {value:?}"))
        )
    };
    error("11");
    error("0");
    error("");
    error("-1");
    error("+");
    error(" 1");
    error("99999999999999999999999");
}

#[test]
fn lines_to_print() {
    assert_eq!(usage_error("bad"), format!("bad\n\n{USAGE}"));
    assert!(USAGE.starts_with("usage: nixcon-quiz --questions DIR [options]\n       nixcon-quiz --check DIR\n\n  --questions DIR  "));
    assert!(USAGE.ends_with("(default 30)"));
    assert_eq!(check_line("dir", 12), "dir: 12 questions, ok");
    assert_eq!(
        serving_line(3, "dir", "127.0.0.1:8080"),
        "serving 3 questions from dir on http://127.0.0.1:8080"
    );
}
