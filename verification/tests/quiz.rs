//! Reading questions.

use nixcon_quiz::quiz::{from_entries, load_dir, parse, Entry, Found, Question};
use serde::de::{Deserialize, Deserializer, MapAccess, Visitor};
use std::fmt::Formatter;

#[test]
fn answer_resolves_to_choice_index() {
    let q = parse(
        "question = \"q\"\nchoices = [\"a\", \"b\", \"c\"]\nanswer = \"c\"\nexplanation = \"e\"\n",
    )
    .unwrap();
    assert_eq!(q.correct, 2);
}

#[test]
fn rejects_broken_questions() {
    let cases = [
        (
            "answer not a choice",
            "choices = [\"a\", \"b\"]\nanswer = \"B\"\nexplanation = \"e\"",
        ),
        (
            "single choice",
            "choices = [\"a\"]\nanswer = \"a\"\nexplanation = \"e\"",
        ),
        (
            "duplicate choice",
            "choices = [\"a\", \"a\"]\nanswer = \"a\"\nexplanation = \"e\"",
        ),
        (
            "typoed key",
            "choices = [\"a\", \"b\"]\nanswer = \"a\"\nexplanation = \"e\"\nsecnods = 3",
        ),
        ("no explanation", "choices = [\"a\", \"b\"]\nanswer = \"a\""),
        (
            "empty explanation",
            "choices = [\"a\", \"b\"]\nanswer = \"a\"\nexplanation = \" \"",
        ),
    ];
    for (what, body) in cases {
        let text = format!("question = \"q\"\n{body}\n");
        assert!(parse(&text).is_err(), "{what} was accepted");
    }
    let valid =
        "question = \"q\"\nchoices = [\"a\", \"b\"]\nanswer = \"a\"\nexplanation = \"e\"\n";
    assert!(
        parse(valid).is_ok(),
        "the cases above differ from this only in their flaw"
    );
}

fn file(name: &str, text: &str) -> Found {
    Found {
        name: name.as_bytes().to_vec(),
        path: format!("dir/{name}"),
        text: Ok(text.to_string()),
    }
}

const FIRST: &str =
    "question = \"first\"\nchoices = [\"x\", \"y\"]\nanswer = \"y\"\nexplanation = \"e\"\n";
const SECOND: &str =
    "question = \"second\"\nchoices = [\"x\", \"y\"]\nanswer = \"x\"\nexplanation = \"e\"\n";
const THIRD: &str =
    "question = \"third\"\nchoices = [\"x\", \"y\"]\nanswer = \"z\"\nexplanation = \"e\"\n";

#[test]
fn directory_loads_toml_files_and_names_the_broken_one() {
    let readme = || file("README.md", "not a question");
    assert!(
        load_dir("dir", Ok(vec![readme()])).is_err(),
        "directory without questions"
    );

    let questions = load_dir(
        "dir",
        Ok(vec![readme(), file("a.toml", FIRST), file("b.toml", SECOND)]),
    )
    .unwrap();
    assert_eq!(questions.len(), 2);

    let err = load_dir(
        "dir",
        Ok(vec![
            readme(),
            file("a.toml", FIRST),
            file("b.toml", SECOND),
            file("c.toml", THIRD),
        ]),
    )
    .unwrap_err()
    .to_string();
    assert!(err.contains("c.toml"), "{err}");
}

#[test]
fn questions_come_in_the_order_of_the_file_names() {
    let texts = |files: Vec<Found>| -> Vec<String> {
        let questions: Vec<Question> = load_dir("dir", Ok(files)).unwrap();
        questions.into_iter().map(|q| q.text).collect()
    };
    assert_eq!(
        texts(vec![file("b.toml", SECOND), file("a.toml", FIRST)]),
        ["first", "second"]
    );
    assert_eq!(
        texts(vec![file("a.toml", FIRST), file("B.toml", SECOND)]),
        ["second", "first"],
        "capitals come first"
    );
}

#[test]
fn what_is_wrong_with_a_directory_is_said() {
    let error = |files| load_dir("dir", files).unwrap_err().to_string();
    assert_eq!(error(Err("no such thing".to_string())), "dir: no such thing");
    assert_eq!(error(Ok(Vec::new())), "dir: no *.toml question files");
    assert_eq!(
        error(Ok(vec![file(".toml", FIRST)])),
        "dir: no *.toml question files",
        "a name that is all extension has none"
    );
    assert_eq!(
        error(Ok(vec![Found {
            name: b"a.toml".to_vec(),
            path: "dir/a.toml".to_string(),
            text: Err("unreadable".to_string()),
        }])),
        "dir/a.toml: unreadable"
    );
    assert_eq!(
        error(Ok(vec![file("z.toml", FIRST), file("c.toml", THIRD)])),
        "dir/c.toml: answer \"z\" is not one of the choices"
    );
}

fn why(question: &str, choices: &str, answer: &str, explanation: &str) -> String {
    parse(&format!(
        "question = {question}\nchoices = {choices}\nanswer = {answer}\nexplanation = {explanation}\n"
    ))
    .unwrap_err()
    .to_string()
}

#[test]
fn every_flaw_of_a_question_is_named() {
    let q = "\"q\"";
    let ab = "[\"a\", \"b\"]";
    let a = "\"a\"";
    let e = "\"e\"";
    assert_eq!(why("\" \\t\"", ab, a, e), "question text is empty");
    assert_eq!(
        why(q, "[\"a\"]", a, e),
        "needs between 2 and 6 choices, has 1"
    );
    assert_eq!(
        why(q, "[\"1\",\"2\",\"3\",\"4\",\"5\",\"6\",\"7\"]", "\"1\"", e),
        "needs between 2 and 6 choices, has 7"
    );
    assert_eq!(why(q, "[\"a\", \"\"]", a, e), "choice 2 is empty");
    assert_eq!(
        why(q, "[\"a\", \"b\\\"\", \"b\\\"\"]", a, e),
        "choice \"b\\\"\" is listed twice"
    );
    assert_eq!(
        why(q, ab, "\"c\"", e),
        "answer \"c\" is not one of the choices"
    );
    assert_eq!(why(q, ab, a, "\"\""), "explanation is empty");
}

/// What a mistake in a question file is answered.
fn error(text: &str) -> String {
    parse(text).unwrap_err().to_string()
}

#[test]
fn a_value_of_the_wrong_type_is_located() {
    assert_eq!(
        error("question = 1"),
        "TOML parse error at line 1, column 12\n  |\n1 | question = 1\n  |            \
         ^\ninvalid type: integer `1`, expected a string\n"
    );
    assert_eq!(
        error("question = \"q\"\nchoices = \"a\""),
        "TOML parse error at line 2, column 11\n  |\n2 | choices = \"a\"\n  |           \
         ^^^\ninvalid type: string \"a\", expected a sequence\n"
    );
    assert_eq!(
        error("choices = [\"a\", true]"),
        "TOML parse error at line 1, column 17\n  |\n1 | choices = [\"a\", true]\n  |                 \
         ^^^^\ninvalid type: boolean `true`, expected a string\n"
    );
}

#[test]
fn an_unknown_key_is_located() {
    assert_eq!(
        error("question = \"q\"\nsecnods = 3\n"),
        "TOML parse error at line 2, column 1\n  |\n2 | secnods = 3\n  | ^^^^^^^\nunknown field \
         `secnods`, expected one of `question`, `choices`, `answer`, `explanation`\n"
    );
}

#[test]
fn a_missing_key_is_named() {
    assert_eq!(
        error("question = \"q\"\nchoices = []\n"),
        "TOML parse error at line 1, column 1\n  |\n1 | question = \"q\"\n  | ^\nmissing field \
         `answer`\n"
    );
}

#[test]
fn what_is_not_toml_is_located() {
    assert!(error("question = ").starts_with("TOML parse error at line 1, column 12\n"));
}

const FIELDS: &[&str] = &["question", "choices", "answer", "explanation"];

/// A question file read through serde, key by key.
struct Plain;

struct Key(usize);

struct KeyVisitor;

impl<'de> Visitor<'de> for KeyVisitor {
    type Value = Key;

    fn expecting(&self, f: &mut Formatter<'_>) -> std::fmt::Result {
        f.write_str("field identifier")
    }

    fn visit_str<E: serde::de::Error>(self, key: &str) -> Result<Key, E> {
        match FIELDS.iter().position(|f| *f == key) {
            Some(i) => Ok(Key(i)),
            None => Err(E::unknown_field(key, FIELDS)),
        }
    }
}

impl<'de> Deserialize<'de> for Key {
    fn deserialize<D: Deserializer<'de>>(d: D) -> Result<Key, D::Error> {
        d.deserialize_identifier(KeyVisitor)
    }
}

struct PlainVisitor;

impl<'de> Visitor<'de> for PlainVisitor {
    type Value = Plain;

    fn expecting(&self, f: &mut Formatter<'_>) -> std::fmt::Result {
        f.write_str("struct File")
    }

    fn visit_map<A: MapAccess<'de>>(self, mut map: A) -> Result<Plain, A::Error> {
        let mut seen = [false; 4];
        while let Some(Key(i)) = map.next_key()? {
            if i == 1 {
                map.next_value::<Vec<String>>()?;
            } else {
                map.next_value::<String>()?;
            }
            seen[i] = true;
        }
        match seen.iter().position(|s| !s) {
            Some(i) => Err(serde::de::Error::missing_field(FIELDS[i])),
            None => Ok(Plain),
        }
    }
}

impl<'de> Deserialize<'de> for Plain {
    fn deserialize<D: Deserializer<'de>>(d: D) -> Result<Plain, D::Error> {
        d.deserialize_struct("File", FIELDS, PlainVisitor)
    }
}

#[test]
fn messages_are_those_of_serde_and_toml() {
    let broken = [
        "",
        "\n\n",
        "x = 1",
        "question = 1",
        "question = 99999999999999999999",
        "question = 999999999999999999999999999999999999999999",
        "x = 999999999999999999999999999999999999999999",
        "question = 1.5",
        "question = [1]",
        "question = { a = 1 }",
        "question.a = 1",
        "[question]\nb = 2",
        "question = 1979-05-27",
        "question = \"q\"\nanswer = true\nchoices = 3",
        "choices = [1, \"a\"]",
        "choices = [\"a\", [\"b\"]]",
        "choices = { }",
        "explanation = \"é\"\n\"clé é\" = \"x\"",
        "answer = \"a\"\nchoices = [\n  \"a\",\n  2,\n]",
        "question = \"q\"\nquestion = \"q\"",
        "question = \"q\"\nchoices = [\"a\", \"b\"]\nanswer = \"a\"",
        "zebra = 1\nquestion = 2\napple = 3",
        "question = \"unfinished",
    ];
    for text in broken {
        let expected = toml::from_str::<Plain>(text).err().unwrap().to_string();
        assert_eq!(error(text), expected, "{text:?}");
    }
    let fine = "question = \"q\"\nchoices = [\"a\", \"b\"]\nanswer = \"a\"\nexplanation = \"e\"\n";
    assert!(toml::from_str::<Plain>(fine).is_ok());
    assert!(parse(fine).is_ok());
}

#[test]
fn entries_make_up_a_question() {
    let entry = |key: &str, value: &str| Entry {
        key: key.to_string(),
        place: format!("at {key}: "),
        text: Ok(value.to_string()),
        texts: Ok(vec!["a".to_string(), value.to_string()]),
    };
    let all = || {
        vec![
            entry("question", "q"),
            entry("choices", "b"),
            entry("answer", "b"),
            entry("explanation", "e"),
        ]
    };
    let q = from_entries("", all()).unwrap();
    assert_eq!((q.correct, q.choices.len()), (1, 2));
    let mut unknown = all();
    unknown.push(entry("x", "y"));
    assert!(from_entries("", unknown)
        .unwrap_err()
        .to_string()
        .starts_with("at x: unknown field `x`"));
    let mut few = all();
    few.pop();
    assert_eq!(
        from_entries("here: ", few).unwrap_err().to_string(),
        "here: missing field `explanation`\n"
    );
    let mut bad = all();
    bad[1].texts = Err("no list".to_string());
    assert_eq!(from_entries("", bad).unwrap_err().to_string(), "no list");
}

#[test]
fn six_choices_are_fine() {
    let q = parse(
        "question = \"q\"\nchoices = [\"1\",\"2\",\"3\",\"4\",\"5\",\"6\"]\nanswer = \"6\"\n\
         explanation = \"e\"\n",
    )
    .unwrap();
    assert_eq!(q.choices.len(), 6);
    assert_eq!(q.choices[q.correct], "6");
    assert_eq!((q.text.as_str(), q.explanation.as_str()), ("q", "e"));
}
