//! Questions: a directory with one TOML file per question, read once at
//! startup and never sent to clients.
//!
//! ```toml
//! question = "Which language are Nix expressions written in?"
//! choices = ["Nix", "Guile", "YAML", "HCL"]
//! answer = "Nix"
//! explanation = "The language is called Nix, like the package manager."
//! ```
//!
//! Only `*.toml` files are questions, so a README can live next to them.

use crate::sort::{keys_of, listed, order, order_is_sorted, order_of, Key, Rank};
use crate::text::{
    blank, chars_of, debug, debug_text, decimal, first_difference, is_blank, lex_le, lex_total,
    push_decimal, same, string_of, the_first_difference_decides,
};
use serde::Deserialize;
use toml::de::{DeTable, DeValue, ValueDeserializer};
use toml::Spanned;
use vstd::prelude::*;

verus! {

#[derive(Debug, Clone)]
pub struct Question {
    pub text: String,
    pub choices: Vec<String>,
    /// Index into `choices`.
    pub correct: usize,
    pub explanation: String,
}

/// What a question says.
#[verifier::ext_equal]
pub struct QuestionModel {
    pub text: Seq<char>,
    pub choices: Seq<Seq<char>>,
    pub correct: usize,
    pub explanation: Seq<char>,
}

/// The characters of each string.
pub open spec fn texts(strings: Seq<String>) -> Seq<Seq<char>> {
    strings.map_values(|s: String| s@)
}

impl Question {
    pub open spec fn model(&self) -> QuestionModel {
        QuestionModel {
            text: self.text@,
            choices: texts(self.choices@),
            correct: self.correct,
            explanation: self.explanation@,
        }
    }
}

pub const MAX_CHOICES: usize = 6;

/// Why a question, or a directory of them, was refused.
#[derive(Debug)]
pub struct Error(String);

impl Error {
    /// The message.
    pub closed spec fn message(&self) -> Seq<char> {
        self.0@
    }

    /// The error with this message.
    pub fn new(message: String) -> (r: Error)
        ensures
            r.message() == message@,
    {
        Error(message)
    }

    /// The message, for people.
    pub fn to_string(&self) -> (r: String)
        ensures
            r@ == self.message(),
    {
        self.0.clone()
    }
}

/// A key of a question file with its value, read as a text and as a list of
/// texts, or the message that says why it cannot be read so. `place` is what
/// stands before a message about the key: where in the file it is.
pub struct Entry {
    pub key: String,
    pub place: String,
    pub text: Result<String, String>,
    pub texts: Result<Vec<String>, String>,
}

/// What an `Entry` says.
pub struct EntryModel {
    pub key: Seq<char>,
    pub place: Seq<char>,
    pub text: Result<Seq<char>, Seq<char>>,
    pub texts: Result<Seq<Seq<char>>, Seq<char>>,
}

pub open spec fn text_result(r: Result<String, String>) -> Result<Seq<char>, Seq<char>> {
    match r {
        Ok(s) => Ok(s@),
        Err(e) => Err(e@),
    }
}

pub open spec fn texts_result(r: Result<Vec<String>, String>) -> Result<
    Seq<Seq<char>>,
    Seq<char>,
> {
    match r {
        Ok(list) => Ok(texts(list@)),
        Err(e) => Err(e@),
    }
}

impl Entry {
    pub open spec fn model(&self) -> EntryModel {
        EntryModel {
            key: self.key@,
            place: self.place@,
            text: text_result(self.text),
            texts: texts_result(self.texts),
        }
    }
}

pub open spec fn entry_models(entries: Seq<Entry>) -> Seq<EntryModel> {
    entries.map_values(|e: Entry| e.model())
}

/// A message of the `toml` crate about a place in a file, as it is shown, and
/// by itself.
struct Notice {
    shown: String,
    message: String,
}

impl Notice {
    /// What stands before the message.
    spec fn place(&self) -> Seq<char> {
        self.shown@.take(self.shown@.len() - self.message@.len() - 1)
    }

    /// The message is shown behind its place, and ends the line.
    spec fn is_placed(&self) -> bool {
        &&& self.shown@.len() > self.message@.len()
        &&& self.shown@ == self.place() + self.message@ + "\n"@
    }
}

/// An entry whose place is known from a message about it.
struct Noted {
    notice: Notice,
    key: String,
    text: Result<String, String>,
    texts: Result<Vec<String>, String>,
}

impl Noted {
    spec fn model(&self) -> EntryModel {
        EntryModel {
            key: self.key@,
            place: self.notice.place(),
            text: text_result(self.text),
            texts: texts_result(self.texts),
        }
    }
}

/// What stands before a message of the `toml` crate about a file as a whole.
pub uninterp spec fn toml_place(text: Seq<char>) -> Seq<char>;

/// `toml::from_str` for the type `()`, which is no table, so that it always
/// fails: with a message about the file as a whole, where the file is valid.
/// The crate shows a message behind its place, followed by the end of the
/// line. How it words the message and the place is left to `toml_place`.
#[verifier::external_body]
fn refuse_toml(text: &str) -> (r: Notice)
    ensures
        r.is_placed(),
        r.place() == toml_place(text@),
{
    let e = toml::from_str::<()>(text).unwrap_err();
    Notice { message: e.message().to_owned(), shown: e.to_string() }
}

/// What the `toml` crate makes of a document: the entries of its top-level
/// table in the order in which it hands them out, or the message of its error.
pub uninterp spec fn toml_entries(text: Seq<char>) -> Result<Seq<EntryModel>, Seq<char>>;

/// `toml::de::DeTable::parse`, with each value read through
/// `toml::de::ValueDeserializer` as a `String` and as a `Vec<String>`. A value
/// that cannot be read so gives the crate's message, with its place in the
/// file. To know how the crate shows the place of a key, the crate is also
/// asked for a message about it: it shows a message behind its place, followed
/// by the end of the line. What the crate accepts, in which order it lists the
/// keys and how it words an error or a place is left to `toml_entries`.
#[verifier::external_body]
fn read_toml(text: &str) -> (r: Result<Vec<Noted>, String>)
    ensures
        match r {
            Ok(list) => {
                &&& forall|i: int|
                    0 <= i < list@.len() ==> (#[trigger] list@[i]).notice.is_placed()
                &&& toml_entries(text@) == Ok::<Seq<EntryModel>, Seq<char>>(
                    list@.map_values(|e: Noted| e.model()),
                )
            },
            Err(message) => toml_entries(text@) == Err::<Seq<EntryModel>, Seq<char>>(message@),
        },
{
    let told = |mut e: toml::de::Error| { e.set_input(Some(text)); e.to_string() };
    let table = DeTable::parse(text).map_err(told)?.into_inner();
    Ok(table.into_iter().map(|(key, value)| {
        let at = Spanned::new(key.span(), DeValue::Boolean(true));
        let e = <()>::deserialize(ValueDeserializer::from(at)).unwrap_err();
        Noted {
            notice: Notice { message: e.message().to_owned(), shown: told(e) },
            key: key.into_inner().into_owned(),
            text: String::deserialize(ValueDeserializer::from(value.clone())).map_err(told),
            texts: Vec::deserialize(ValueDeserializer::from(value)).map_err(told),
        }
    }).collect())
}

/// The contents of a question file, as far as they have been seen.
pub struct File {
    question: Option<String>,
    choices: Option<Vec<String>>,
    /// Must be spelled exactly like one of `choices`.
    answer: Option<String>,
    /// Shown with the answer once the question closes.
    explanation: Option<String>,
}

/// What a `File` says.
#[verifier::ext_equal]
pub struct FileModel {
    pub question: Option<Seq<char>>,
    pub choices: Option<Seq<Seq<char>>>,
    pub answer: Option<Seq<char>>,
    pub explanation: Option<Seq<char>>,
}

pub open spec fn text_model(s: Option<String>) -> Option<Seq<char>> {
    match s {
        Some(s) => Some(s@),
        None => None,
    }
}

impl File {
    pub closed spec fn model(&self) -> FileModel {
        FileModel {
            question: text_model(self.question),
            choices: match self.choices {
                Some(c) => Some(texts(c@)),
                None => None,
            },
            answer: text_model(self.answer),
            explanation: text_model(self.explanation),
        }
    }
}

/// The file before anything of it was seen.
pub open spec fn nothing() -> FileModel {
    FileModel { question: None, choices: None, answer: None, explanation: None }
}

pub open spec fn unknown_field(key: Seq<char>) -> Seq<char> {
    "unknown field `"@ + key
        + "`, expected one of `question`, `choices`, `answer`, `explanation`"@
}

/// A message with its place in the file.
pub open spec fn placed(place: Seq<char>, message: Seq<char>) -> Seq<char> {
    place + message + "\n"@
}

/// The file with one more entry, or why that entry is refused.
pub open spec fn with_entry(file: FileModel, entry: EntryModel) -> Result<FileModel, Seq<char>> {
    if entry.key == "question"@ {
        match entry.text {
            Ok(s) => Ok(FileModel { question: Some(s), ..file }),
            Err(e) => Err(e),
        }
    } else if entry.key == "choices"@ {
        match entry.texts {
            Ok(list) => Ok(FileModel { choices: Some(list), ..file }),
            Err(e) => Err(e),
        }
    } else if entry.key == "answer"@ {
        match entry.text {
            Ok(s) => Ok(FileModel { answer: Some(s), ..file }),
            Err(e) => Err(e),
        }
    } else if entry.key == "explanation"@ {
        match entry.text {
            Ok(s) => Ok(FileModel { explanation: Some(s), ..file }),
            Err(e) => Err(e),
        }
    } else {
        Err(placed(entry.place, unknown_field(entry.key)))
    }
}

/// The file that the entries make up, or why the first bad one is refused.
pub open spec fn with_entries(entries: Seq<EntryModel>) -> Result<FileModel, Seq<char>>
    decreases entries.len(),
{
    if entries.len() == 0 {
        Ok(nothing())
    } else {
        match with_entries(entries.drop_last()) {
            Ok(file) => with_entry(file, entries.last()),
            Err(e) => Err(e),
        }
    }
}

/// What is wrong with one choice, given those before it: nothing in it, or
/// seen before.
pub open spec fn choice_flaw(choices: Seq<Seq<char>>, j: int) -> Option<Seq<char>> {
    if is_blank(choices[j]) {
        Some("choice "@ + decimal((j + 1) as nat) + " is empty"@)
    } else if choices.take(j).contains(choices[j]) {
        Some("choice "@ + debug_text(choices[j]) + " is listed twice"@)
    } else {
        None
    }
}

/// What is wrong with the first bad choice from `j` on.
pub open spec fn first_flaw(choices: Seq<Seq<char>>, j: int) -> Option<Seq<char>>
    decreases choices.len() - j,
{
    if j < 0 || j >= choices.len() {
        None
    } else {
        match choice_flaw(choices, j) {
            Some(message) => Some(message),
            None => first_flaw(choices, j + 1),
        }
    }
}

/// The question that these texts make up, or why they do not.
pub open spec fn checked(
    question: Seq<char>,
    choices: Seq<Seq<char>>,
    answer: Seq<char>,
    explanation: Seq<char>,
) -> Result<QuestionModel, Seq<char>> {
    if is_blank(question) {
        Err("question text is empty"@)
    } else if !(2 <= choices.len() <= MAX_CHOICES) {
        Err(
            "needs between 2 and "@ + decimal(MAX_CHOICES as nat) + " choices, has "@ + decimal(
                choices.len(),
            ),
        )
    } else if first_flaw(choices, 0) is Some {
        Err(first_flaw(choices, 0)->0)
    } else if !choices.contains(answer) {
        Err("answer "@ + debug_text(answer) + " is not one of the choices"@)
    } else if is_blank(explanation) {
        Err("explanation is empty"@)
    } else {
        Ok(
            QuestionModel {
                text: question,
                choices,
                correct: choices.index_of(answer) as usize,
                explanation,
            },
        )
    }
}

pub open spec fn missing_field(key: Seq<char>) -> Seq<char> {
    "missing field `"@ + key + "`"@
}

/// The question in a file, or why there is none.
pub open spec fn question_in(place: Seq<char>, file: FileModel) -> Result<
    QuestionModel,
    Seq<char>,
> {
    if file.question is None {
        Err(placed(place, missing_field("question"@)))
    } else if file.choices is None {
        Err(placed(place, missing_field("choices"@)))
    } else if file.answer is None {
        Err(placed(place, missing_field("answer"@)))
    } else if file.explanation is None {
        Err(placed(place, missing_field("explanation"@)))
    } else {
        checked(file.question->0, file.choices->0, file.answer->0, file.explanation->0)
    }
}

/// The question that the entries of a file describe, or why there is none.
/// `place` stands before a message about the file as a whole.
pub open spec fn described(place: Seq<char>, entries: Seq<EntryModel>) -> Result<
    QuestionModel,
    Seq<char>,
> {
    match with_entries(entries) {
        Ok(file) => question_in(place, file),
        Err(e) => Err(e),
    }
}

/// The question that a text describes, or why there is none.
pub open spec fn parsed(text: Seq<char>) -> Result<QuestionModel, Seq<char>> {
    match toml_entries(text) {
        Ok(entries) => described(toml_place(text), entries),
        Err(e) => Err(e),
    }
}

/// A result says what a specification says.
pub open spec fn agrees(r: Result<Question, Error>, s: Result<QuestionModel, Seq<char>>) -> bool {
    match r {
        Ok(q) => s == Ok::<QuestionModel, Seq<char>>(q.model()),
        Err(e) => s == Err::<QuestionModel, Seq<char>>(e.message()),
    }
}

fn add_entry(file: File, entry: Entry) -> (r: Result<File, String>)
    ensures
        ({
            let s = with_entry(file.model(), entry.model());
            match r {
                Ok(f) => s == Ok::<FileModel, Seq<char>>(f.model()),
                Err(e) => s == Err::<FileModel, Seq<char>>(e@),
            }
        }),
{
    let mut file = file;
    let key = entry.key;
    if same(key.as_str(), "question") {
        match entry.text {
            Ok(s) => {
                file.question = Some(s);
                Ok(file)
            },
            Err(e) => Err(e),
        }
    } else if same(key.as_str(), "choices") {
        match entry.texts {
            Ok(list) => {
                file.choices = Some(list);
                Ok(file)
            },
            Err(e) => Err(e),
        }
    } else if same(key.as_str(), "answer") {
        match entry.text {
            Ok(s) => {
                file.answer = Some(s);
                Ok(file)
            },
            Err(e) => Err(e),
        }
    } else if same(key.as_str(), "explanation") {
        match entry.text {
            Ok(s) => {
                file.explanation = Some(s);
                Ok(file)
            },
            Err(e) => Err(e),
        }
    } else {
        let mut out = "unknown field `".to_owned();
        out.append(key.as_str());
        out.append("`, expected one of `question`, `choices`, `answer`, `explanation`");
        Err(put(entry.place.as_str(), out.as_str()))
    }
}

fn put(place: &str, message: &str) -> (r: String)
    ensures
        r@ == placed(place@, message@),
{
    let mut out = place.to_owned();
    out.append(message);
    out.append("\n");
    out
}

proof fn entries_fail_with_prefix(entries: Seq<EntryModel>, k: int)
    requires
        0 <= k <= entries.len(),
        with_entries(entries.take(k)) is Err,
    ensures
        with_entries(entries) == with_entries(entries.take(k)),
    decreases entries.len(),
{
    if k < entries.len() {
        assert(entries.take(k) =~= entries.drop_last().take(k));
        entries_fail_with_prefix(entries.drop_last(), k);
    } else {
        assert(entries.take(k) =~= entries);
    }
}

fn missing(place: &str, key: &str) -> (r: Error)
    ensures
        r.message() == placed(place@, missing_field(key@)),
{
    let mut out = "missing field `".to_owned();
    out.append(key);
    out.append("`");
    Error(put(place, out.as_str()))
}

/// The question that the entries of a file describe. `place` is what stands
/// before a message about the file as a whole.
pub fn from_entries(place: &str, entries: Vec<Entry>) -> (r: Result<Question, Error>)
    ensures
        agrees(r, described(place@, entry_models(entries@))),
{
    let ghost all = entry_models(entries@);
    let mut file = File { question: None, choices: None, answer: None, explanation: None };
    assert(all.take(0) =~= Seq::empty());
    let ghost given = entries@;
    let mut rest = entries;
    let ghost mut done: int = 0;
    assert(given.skip(0) =~= given);
    while rest.len() > 0
        invariant
            0 <= done <= given.len(),
            given == entries@,
            rest@ == given.skip(done),
            all == entry_models(given),
            with_entries(all.take(done)) == Ok::<FileModel, Seq<char>>(file.model()),
        decreases rest@.len(),
    {
        let entry = rest.remove(0);
        proof {
            assert(all.take(done + 1).drop_last() =~= all.take(done));
            assert(all.take(done + 1).last() == all[done]);
            assert(entry == given[done]);
        }
        match add_entry(file, entry) {
            Ok(f) => {
                file = f;
            },
            Err(e) => {
                proof {
                    entries_fail_with_prefix(all, done + 1);
                }
                return Err(Error(e));
            },
        }
        proof {
            assert(given.skip(done).remove(0) =~= given.skip(done + 1));
            done = done + 1;
        }
    }
    assert(all.take(done) =~= all);
    let question = match file.question {
        Some(s) => s,
        None => {
            return Err(missing(place, "question"));
        },
    };
    let choices = match file.choices {
        Some(c) => c,
        None => {
            return Err(missing(place, "choices"));
        },
    };
    let answer = match file.answer {
        Some(s) => s,
        None => {
            return Err(missing(place, "answer"));
        },
    };
    let explanation = match file.explanation {
        Some(s) => s,
        None => {
            return Err(missing(place, "explanation"));
        },
    };
    check(question, choices, answer, explanation)
}

/// The position of `text` among the first `end` of `list`.
fn position(list: &Vec<String>, end: usize, text: &String) -> (r: Option<usize>)
    requires
        end <= list@.len(),
    ensures
        match r {
            Some(i) => i < end && texts(list@)[i as int] == text@,
            None => !texts(list@).take(end as int).contains(text@),
        },
{
    let mut i: usize = 0;
    while i < end
        invariant
            i <= end <= list@.len(),
            forall|j: int| 0 <= j < i ==> texts(list@)[j] != text@,
        decreases end - i,
    {
        if list[i] == *text {
            return Some(i);
        }
        i += 1;
    }
    None
}

proof fn no_flaw_up_to(choices: Seq<Seq<char>>, k: int)
    requires
        0 <= k <= choices.len(),
        forall|j: int| 0 <= j < k ==> (#[trigger] choice_flaw(choices, j)) is None,
    ensures
        first_flaw(choices, 0) == first_flaw(choices, k),
    decreases k,
{
    if k > 0 {
        no_flaw_up_to(choices, k - 1);
        assert(choice_flaw(choices, k - 1) is None);
    }
}

/// Choices without a flaw are all different and none is blank.
pub proof fn flawless_choices(choices: Seq<Seq<char>>)
    requires
        first_flaw(choices, 0) is None,
    ensures
        choices.no_duplicates(),
        forall|j: int| 0 <= j < choices.len() ==> !is_blank(#[trigger] choices[j]),
{
    assert forall|j: int| 0 <= j < choices.len() implies (#[trigger] choice_flaw(
        choices,
        j,
    )) is None by {
        flawless_from(choices, 0, j);
    }
    assert forall|j: int| 0 <= j < choices.len() implies !is_blank(#[trigger] choices[j]) by {
        assert(choice_flaw(choices, j) is None);
    }
    assert forall|i: int, j: int| 0 <= i < j < choices.len() implies choices[i] != choices[j] by {
        assert(choice_flaw(choices, j) is None);
        assert(choices.take(j)[i] == choices[i]);
    }
}

proof fn flawless_from(choices: Seq<Seq<char>>, k: int, j: int)
    requires
        0 <= k <= j < choices.len(),
        first_flaw(choices, k) is None,
    ensures
        choice_flaw(choices, j) is None,
    decreases j - k,
{
    if k < j {
        flawless_from(choices, k + 1, j);
    }
}

/// The question that these texts make up.
pub fn check(question: String, choices: Vec<String>, answer: String, explanation: String) -> (r:
    Result<Question, Error>)
    ensures
        agrees(r, checked(question@, texts(choices@), answer@, explanation@)),
{
    if blank(question.as_str()) {
        return Err(Error("question text is empty".to_owned()));
    }
    let n = choices.len();
    if n < 2 || n > MAX_CHOICES {
        let mut out = "needs between 2 and ".to_owned();
        push_decimal(&mut out, MAX_CHOICES as u64);
        out.append(" choices, has ");
        push_decimal(&mut out, n as u64);
        return Err(Error(out));
    }
    let ghost list = texts(choices@);
    let mut j: usize = 0;
    while j < n
        invariant
            j <= n,
            n == choices@.len(),
            2 <= n <= MAX_CHOICES,
            list == texts(choices@),
            !is_blank(question@),
            forall|k: int| 0 <= k < j ==> (#[trigger] choice_flaw(list, k)) is None,
        decreases n - j,
    {
        proof {
            no_flaw_up_to(list, j as int);
        }
        if blank(choices[j].as_str()) {
            let mut out = "choice ".to_owned();
            push_decimal(&mut out, j as u64 + 1);
            out.append(" is empty");
            return Err(Error(out));
        }
        if position(&choices, j, &choices[j]).is_some() {
            proof {
                let i = choose|i: int| 0 <= i < j && list[i] == list[j as int];
                assert(list.take(j as int)[i] == list[j as int]);
            }
            let mut out = "choice ".to_owned();
            out.append(debug(choices[j].as_str()).as_str());
            out.append(" is listed twice");
            return Err(Error(out));
        }
        j += 1;
    }
    proof {
        no_flaw_up_to(list, n as int);
        flawless_choices(list);
        assert(list.take(n as int) =~= list);
    }
    let correct = match position(&choices, n, &answer) {
        Some(i) => i,
        None => {
            let mut out = "answer ".to_owned();
            out.append(debug(answer.as_str()).as_str());
            out.append(" is not one of the choices");
            return Err(Error(out));
        },
    };
    assert(list[correct as int] == answer@);
    if blank(explanation.as_str()) {
        return Err(Error("explanation is empty".to_owned()));
    }
    Ok(Question { text: question, choices, correct, explanation })
}

fn place_of(notice: &Notice) -> (r: String)
    requires
        notice.is_placed(),
    ensures
        r@ == notice.place(),
{
    let shown = chars_of(notice.shown.as_str());
    let message = chars_of(notice.message.as_str());
    let n: usize = shown.len() - message.len() - 1;
    assert(shown@.subrange(0, n as int) =~= shown@.take(n as int));
    string_of(&shown, 0, n)
}

/// The entries of a document with their places.
fn place_entries(noted: Vec<Noted>) -> (r: Vec<Entry>)
    requires
        forall|i: int| 0 <= i < noted@.len() ==> (#[trigger] noted@[i]).notice.is_placed(),
    ensures
        entry_models(r@) == noted@.map_values(|e: Noted| e.model()),
{
    let ghost given = noted@;
    let mut rest = noted;
    let mut r: Vec<Entry> = Vec::new();
    assert(given.skip(0) =~= given);
    while rest.len() > 0
        invariant
            r@.len() <= given.len(),
            rest@ == given.skip(r@.len() as int),
            forall|i: int| 0 <= i < given.len() ==> (#[trigger] given[i]).notice.is_placed(),
            forall|i: int| 0 <= i < r@.len() ==> (#[trigger] r@[i]).model() == given[i].model(),
        decreases rest@.len(),
    {
        let ghost n = r@.len() as int;
        let next = rest.remove(0);
        assert(next == given[n]);
        let place = place_of(&next.notice);
        r.push(Entry { key: next.key, place, text: next.text, texts: next.texts });
        assert(given.skip(n).remove(0) =~= given.skip(n + 1));
    }
    assert(entry_models(r@) =~= given.map_values(|e: Noted| e.model()));
    r
}

/// The question that a text describes.
pub fn parse(text: &str) -> (r: Result<Question, Error>)
    ensures
        agrees(r, parsed(text@)),
{
    match read_toml(text) {
        Ok(noted) => {
            let place = place_of(&refuse_toml(text));
            from_entries(place.as_str(), place_entries(noted))
        },
        Err(message) => Err(Error(message)),
    }
}

/// A file next to the questions: its name as the file system has it, the path
/// to show, and what reading it gave.
pub struct Found {
    pub name: Vec<u8>,
    pub path: String,
    pub text: Result<String, String>,
}

/// Whether a file name has the extension `toml`. A name that is nothing but
/// the extension has none.
pub open spec fn is_question_name(name: Seq<u8>) -> bool {
    &&& name.len() > 5
    &&& name.skip(name.len() - 5) == seq![46u8, 116u8, 111u8, 109u8, 108u8]
}

/// Whether a file holds a question, by its name.
pub fn is_question_file(name: &Vec<u8>) -> (r: bool)
    ensures
        r == is_question_name(name@),
{
    let n = name.len();
    if n <= 5 {
        return false;
    }
    let r = name[n - 5] == 46 && name[n - 4] == 116 && name[n - 3] == 111 && name[n - 2] == 109
        && name[n - 1] == 108;
    proof {
        let suffix = name@.skip(n - 5);
        let want = seq![46u8, 116u8, 111u8, 109u8, 108u8];
        if r {
            assert(suffix =~= want);
        } else if suffix == want {
            assert(suffix[0] == want[0]);
            assert(suffix[1] == want[1]);
            assert(suffix[2] == want[2]);
            assert(suffix[3] == want[3]);
            assert(suffix[4] == want[4]);
        }
    }
    r
}

/// What files are sorted by: the bytes of their names.
pub open spec fn name_key(name: Seq<u8>) -> Key {
    Key { first: 0, text: name.map_values(|b: u8| b as char), second: 0 }
}

/// The bytes of a name as what to sort by.
pub fn name_rank(name: &Vec<u8>) -> (r: Rank)
    ensures
        r.key() == name_key(name@),
{
    let mut text: Vec<char> = Vec::new();
    let mut i: usize = 0;
    while i < name.len()
        invariant
            i <= name@.len(),
            text@ == name@.take(i as int).map_values(|b: u8| b as char),
        decreases name@.len() - i,
    {
        text.push(name[i] as char);
        i += 1;
        assert(text@ =~= name@.take(i as int).map_values(|b: u8| b as char));
    }
    assert(name@.take(i as int) =~= name@);
    Rank { first: 0, text, second: 0 }
}

/// What a `Found` says.
pub struct FoundModel {
    pub name: Seq<u8>,
    pub path: Seq<char>,
    pub text: Result<Seq<char>, Seq<char>>,
}

impl Found {
    pub open spec fn model(&self) -> FoundModel {
        FoundModel {
            name: self.name@,
            path: self.path@,
            text: match self.text {
                Ok(s) => Ok(s@),
                Err(e) => Err(e@),
            },
        }
    }
}

pub open spec fn found_models(files: Seq<Found>) -> Seq<FoundModel> {
    files.map_values(|f: Found| f.model())
}

/// What listing a directory gave.
pub open spec fn listing(files: Result<Vec<Found>, String>) -> Result<Seq<FoundModel>, Seq<char>> {
    match files {
        Ok(files) => Ok(found_models(files@)),
        Err(e) => Err(e@),
    }
}

/// Files in the order of their names.
pub open spec fn by_name(files: Seq<FoundModel>) -> Seq<FoundModel> {
    order_of(files.map_values(|f: FoundModel| name_key(f.name))).map_values(|i: int| files[i])
}

/// A message about a place.
pub open spec fn located(place: Seq<char>, message: Seq<char>) -> Seq<char> {
    place + ": "@ + message
}

/// The question in one file, or why there is none, with the path of the file.
pub open spec fn question_of(file: FoundModel) -> Result<QuestionModel, Seq<char>> {
    match file.text {
        Err(e) => Err(located(file.path, e)),
        Ok(text) => match parsed(text) {
            Ok(q) => Ok(q),
            Err(e) => Err(located(file.path, e)),
        },
    }
}

/// The questions in the files, or what is wrong with the first bad one.
pub open spec fn questions_of(files: Seq<FoundModel>) -> Result<Seq<QuestionModel>, Seq<char>>
    decreases files.len(),
{
    if files.len() == 0 {
        Ok(Seq::empty())
    } else {
        match questions_of(files.drop_last()) {
            Err(e) => Err(e),
            Ok(before) => match question_of(files.last()) {
                Ok(q) => Ok(before.push(q)),
                Err(e) => Err(e),
            },
        }
    }
}

/// The questions in a directory, in the order of the file names, given what
/// listing the directory gave.
pub open spec fn loaded(dir: Seq<char>, files: Result<Seq<FoundModel>, Seq<char>>) -> Result<
    Seq<QuestionModel>,
    Seq<char>,
> {
    match files {
        Err(e) => Err(located(dir, e)),
        Ok(files) => {
            let questions = files.filter(|f: FoundModel| is_question_name(f.name));
            if questions.len() == 0 {
                Err(located(dir, "no *.toml question files"@))
            } else {
                questions_of(by_name(questions))
            }
        },
    }
}

pub open spec fn question_models(questions: Seq<Question>) -> Seq<QuestionModel> {
    questions.map_values(|q: Question| q.model())
}

fn at(place: &str, message: &str) -> (r: Error)
    ensures
        r.message() == located(place@, message@),
{
    let mut out = place.to_owned();
    out.append(": ");
    out.append(message);
    Error(out)
}

fn load(file: &Found) -> (r: Result<Question, Error>)
    ensures
        agrees(r, question_of(file.model())),
{
    match &file.text {
        Err(e) => Err(at(file.path.as_str(), e.as_str())),
        Ok(text) => match parse(text.as_str()) {
            Ok(q) => Ok(q),
            Err(e) => Err(at(file.path.as_str(), e.0.as_str())),
        },
    }
}

proof fn questions_fail_with_prefix(files: Seq<FoundModel>, k: int)
    requires
        0 <= k <= files.len(),
        questions_of(files.take(k)) is Err,
    ensures
        questions_of(files) == questions_of(files.take(k)),
    decreases files.len(),
{
    if k < files.len() {
        assert(files.take(k) =~= files.drop_last().take(k));
        questions_fail_with_prefix(files.drop_last(), k);
    } else {
        assert(files.take(k) =~= files);
    }
}

/// Every `*.toml` file of a directory, in file name order. `files` is what
/// listing the directory gave: the files, each with what reading it gave, or
/// why the directory could not be read.
pub fn load_dir(dir: &str, files: Result<Vec<Found>, String>) -> (r: Result<Vec<Question>, Error>)
    ensures
        match r {
            Ok(questions) => loaded(dir@, listing(files)) == Ok::<Seq<QuestionModel>, Seq<char>>(
                question_models(questions@),
            ),
            Err(e) => loaded(dir@, listing(files)) == Err::<Seq<QuestionModel>, Seq<char>>(
                e.message(),
            ),
        },
{
    let found = match files {
        Ok(found) => found,
        Err(e) => {
            return Err(at(dir, e.as_str()));
        },
    };
    let ghost all = found_models(found@);
    let ghost is_question = |f: FoundModel| is_question_name(f.name);
    // The places of the question files, and what those are sorted by.
    let mut places: Vec<usize> = Vec::new();
    let mut ranks: Vec<Rank> = Vec::new();
    let mut i: usize = 0;
    proof {
        reveal(Seq::filter);
        assert(all.take(0).filter(is_question) =~= Seq::empty());
    }
    while i < found.len()
        invariant
            i <= found@.len(),
            all == found_models(found@),
            is_question == (|f: FoundModel| is_question_name(f.name)),
            places@.len() == ranks@.len(),
            all.take(i as int).filter(is_question) == places@.map_values(
                |p: usize| all[p as int],
            ),
            forall|k: int| 0 <= k < places@.len() ==> (#[trigger] places@[k]) < i,
            forall|k: int|
                0 <= k < ranks@.len() ==> (#[trigger] ranks@[k]).key() == name_key(
                    all[places@[k] as int].name,
                ),
        decreases found@.len() - i,
    {
        proof {
            reveal(Seq::filter);
            assert(all.take(i + 1).drop_last() =~= all.take(i as int));
            assert(all.take(i + 1).last() == all[i as int]);
        }
        if is_question_file(&found[i].name) {
            let ghost before = places@;
            ranks.push(name_rank(&found[i].name));
            places.push(i);
            assert(places@.map_values(|p: usize| all[p as int]) =~= before.map_values(
                |p: usize| all[p as int],
            ).push(all[i as int]));
        }
        i += 1;
    }
    assert(all.take(i as int) =~= all);
    let ghost chosen = all.filter(is_question);
    if places.len() == 0 {
        return Err(at(dir, "no *.toml question files"));
    }
    let sorted = order(&ranks);
    let ghost keys = chosen.map_values(|f: FoundModel| name_key(f.name));
    let ghost listed = by_name(chosen);
    proof {
        assert(keys_of(ranks@) =~= keys);
        order_is_sorted(keys);
        assert(sorted@.map_values(|i: usize| i as int).len() == sorted@.len());
        assert forall|k: int| 0 <= k < sorted@.len() implies #[trigger] listed[k]
            == all[places@[sorted@[k] as int] as int] by {
            assert(sorted@.map_values(|i: usize| i as int)[k] == order_of(keys)[k]);
        }
    }
    let mut questions: Vec<Question> = Vec::new();
    let mut k: usize = 0;
    assert(listed.take(0) =~= Seq::empty());
    assert(question_models(questions@) =~= Seq::empty());
    while k < sorted.len()
        invariant
            k <= sorted@.len(),
            sorted@.len() == listed.len(),
            all == found_models(found@),
            listing(files) == Ok::<Seq<FoundModel>, Seq<char>>(all),
            forall|k: int|
                0 <= k < sorted@.len() ==> (#[trigger] sorted@[k]) < places@.len(),
            forall|k: int|
                0 <= k < places@.len() ==> (#[trigger] places@[k]) < found@.len(),
            forall|k: int|
                0 <= k < sorted@.len() ==> #[trigger] listed[k]
                    == all[places@[sorted@[k] as int] as int],
            questions_of(listed.take(k as int)) == Ok::<Seq<QuestionModel>, Seq<char>>(
                question_models(questions@),
            ),
            listed == by_name(all.filter(|f: FoundModel| is_question_name(f.name))),
            all.filter(|f: FoundModel| is_question_name(f.name)).len() > 0,
        decreases sorted@.len() - k,
    {
        let ghost file = listed[k as int];
        assert(listed.take(k + 1).drop_last() =~= listed.take(k as int));
        assert(listed.take(k + 1).last() == file);
        match load(&found[places[sorted[k]]]) {
            Ok(q) => {
                let ghost before = questions@;
                questions.push(q);
                assert(question_models(questions@) =~= question_models(before).push(q.model()));
            },
            Err(e) => {
                proof {
                    questions_fail_with_prefix(listed, k + 1);
                }
                return Err(e);
            },
        }
        k += 1;
    }
    assert(listed.take(k as int) =~= listed);
    Ok(questions)
}

/// What holds of every question that is played: there are at least two
/// choices and no more than can be shown, no two of them the same, and
/// nothing is left blank.
pub open spec fn is_playable(q: QuestionModel) -> bool {
    &&& !is_blank(q.text)
    &&& 2 <= q.choices.len() <= MAX_CHOICES
    &&& q.choices.no_duplicates()
    &&& forall|i: int| 0 <= i < q.choices.len() ==> !is_blank(#[trigger] q.choices[i])
    &&& q.correct < q.choices.len()
    &&& !is_blank(q.explanation)
}

/// A question that passes is playable, and its answer is the choice that
/// counts as correct.
pub proof fn checked_is_playable(
    question: Seq<char>,
    choices: Seq<Seq<char>>,
    answer: Seq<char>,
    explanation: Seq<char>,
)
    requires
        checked(question, choices, answer, explanation) is Ok,
    ensures
        is_playable(checked(question, choices, answer, explanation)->Ok_0),
        ({
            let q = checked(question, choices, answer, explanation)->Ok_0;
            q.choices[q.correct as int] == answer
        }),
{
    flawless_choices(choices);
    let i = choices.index_of(answer);
    assert(0 <= i < choices.len() && choices[i] == answer);
}

/// A text that is read as a question gives a playable one.
pub proof fn parsed_is_playable(text: Seq<char>)
    requires
        parsed(text) is Ok,
    ensures
        is_playable(parsed(text)->Ok_0),
{
    let file = with_entries(toml_entries(text)->Ok_0)->Ok_0;
    checked_is_playable(
        file.question->0,
        file.choices->0,
        file.answer->0,
        file.explanation->0,
    );
}

proof fn all_are_playable(files: Seq<FoundModel>)
    requires
        questions_of(files) is Ok,
    ensures
        questions_of(files)->Ok_0.len() == files.len(),
        forall|i: int|
            0 <= i < files.len() ==> is_playable(#[trigger] questions_of(files)->Ok_0[i]),
    decreases files.len(),
{
    if files.len() > 0 {
        all_are_playable(files.drop_last());
        parsed_is_playable(files.last().text->Ok_0);
    }
}

/// A directory that loads holds a question, and all its questions are
/// playable.
pub proof fn loaded_is_playable(dir: Seq<char>, files: Result<Seq<FoundModel>, Seq<char>>)
    requires
        loaded(dir, files) is Ok,
    ensures
        loaded(dir, files)->Ok_0.len() > 0,
        forall|i: int|
            0 <= i < loaded(dir, files)->Ok_0.len() ==> is_playable(
                #[trigger] loaded(dir, files)->Ok_0[i],
            ),
{
    let questions = files->Ok_0.filter(|f: FoundModel| is_question_name(f.name));
    order_is_sorted(questions.map_values(|f: FoundModel| name_key(f.name)));
    all_are_playable(by_name(questions));
}

// What a directory gives

/// Whether one name comes no later than another, byte by byte: the first byte
/// in which they differ decides, or the shorter one comes first.
pub open spec fn is_named_first(a: Seq<u8>, b: Seq<u8>) -> bool {
    exists|k: int|
        {
            &&& 0 <= k <= a.len() && k <= b.len()
            &&& #[trigger] a.take(k) == b.take(k)
            &&& k == a.len() || (k < b.len() && a[k] < b[k])
        }
}

/// The places of the question files in a directory, by name: each once.
pub open spec fn are_question_places(files: Seq<FoundModel>, places: Seq<int>) -> bool {
    &&& places.no_duplicates()
    &&& forall|p: int| #[trigger]
        places.contains(p) <==> 0 <= p < files.len() && is_question_name(files[p].name)
    &&& forall|i: int, j: int|
        0 <= i < j < places.len() ==> is_named_first(
            files[#[trigger] places[i]].name,
            files[#[trigger] places[j]].name,
        )
}

/// A question file is one whose name is something followed by `.toml`.
pub proof fn question_names_end_in_toml(name: Seq<u8>, stem: Seq<u8>)
    ensures
        is_question_name(name) <==> {
            let n = name.len() as int;
            &&& n > 5
            &&& name[n - 5] == '.' as u8 && name[n - 4] == 't' as u8 && name[n - 3] == 'o' as u8
                && name[n - 2] == 'm' as u8 && name[n - 1] == 'l' as u8
        },
        stem.len() > 0 ==> is_question_name(
            stem + seq!['.' as u8, 't' as u8, 'o' as u8, 'm' as u8, 'l' as u8],
        ),
{
    let end = seq!['.' as u8, 't' as u8, 'o' as u8, 'm' as u8, 'l' as u8];
    let n = name.len() as int;
    if n > 5 {
        let suffix = name.skip(n - 5);
        assert(suffix[0] == name[n - 5] && suffix[1] == name[n - 4] && suffix[2] == name[n - 3]
            && suffix[3] == name[n - 2] && suffix[4] == name[n - 1]);
        if name[n - 5] == end[0] && name[n - 4] == end[1] && name[n - 3] == end[2] && name[n - 2]
            == end[3] && name[n - 1] == end[4] {
            assert(suffix =~= end);
        }
    }
    if stem.len() > 0 {
        assert((stem + end).skip((stem + end).len() - 5) =~= end);
    }
}

/// What files are sorted by compares the bytes of their names.
pub proof fn name_keys_compare_bytes(a: Seq<u8>, b: Seq<u8>)
    requires
        name_key(a) == name_key(b) || lex_le(name_key(a).text, name_key(b).text),
    ensures
        is_named_first(a, b),
{
    let x = name_key(a).text;
    let y = name_key(b).text;
    let k = first_difference(x, y);
    lex_total(x, x);
    the_first_difference_decides(x, y, k);
    assert forall|j: int| 0 <= j < k implies a[j] == b[j] by {
        assert(x[j] == a[j] as char);
        assert(y[j] == b[j] as char);
    }
    assert(a.take(k) =~= b.take(k));
    if k < a.len() && k < b.len() {
        assert(x[k] == a[k] as char);
        assert(y[k] == b[k] as char);
    }
}

/// The places of what a filter keeps.
spec fn kept_places(files: Seq<FoundModel>) -> Seq<int>
    decreases files.len(),
{
    if files.len() == 0 {
        Seq::empty()
    } else {
        let before = kept_places(files.drop_last());
        if is_question_name(files.last().name) {
            before.push(files.len() - 1)
        } else {
            before
        }
    }
}

proof fn kept_places_are_all(files: Seq<FoundModel>)
    ensures
        ({
            let places = kept_places(files);
            &&& files.filter(|f: FoundModel| is_question_name(f.name)) == places.map_values(
                |p: int| files[p],
            )
            &&& places.no_duplicates()
            &&& forall|p: int| #[trigger]
                places.contains(p) <==> 0 <= p < files.len() && is_question_name(files[p].name)
        }),
    decreases files.len(),
{
    reveal(Seq::filter);
    let is_one = |f: FoundModel| is_question_name(f.name);
    let places = kept_places(files);
    if files.len() > 0 {
        let rest = files.drop_last();
        let before = kept_places(rest);
        let last = files.len() - 1;
        kept_places_are_all(rest);
        assert forall|i: int| 0 <= i < before.len() implies 0 <= #[trigger] before[i] < last by {
            assert(before.contains(before[i]));
        }
        assert(before.map_values(|p: int| rest[p]) =~= before.map_values(|p: int| files[p]));
        if is_one(files.last()) {
            assert(places.map_values(|p: int| files[p]) =~= before.map_values(
                |p: int| files[p],
            ).push(files.last()));
            assert forall|p: int| #[trigger] places.contains(p) <==> 0 <= p < files.len()
                && is_question_name(files[p].name) by {
                if places.contains(p) {
                    let i = choose|i: int| 0 <= i < places.len() && places[i] == p;
                    if i < before.len() {
                        assert(before[i] == p);
                        assert(before.contains(p));
                        assert(rest[p] == files[p]);
                    }
                }
                if 0 <= p < files.len() && is_question_name(files[p].name) {
                    if p < last {
                        assert(rest[p] == files[p]);
                        assert(before.contains(p));
                        let i = choose|i: int| 0 <= i < before.len() && before[i] == p;
                        assert(places[i] == p);
                    } else {
                        assert(places[places.len() - 1] == p);
                    }
                }
            }
        } else {
            assert forall|p: int| #[trigger] places.contains(p) <==> 0 <= p < files.len()
                && is_question_name(files[p].name) by {
                assert(before.contains(p) <==> 0 <= p < rest.len() && is_question_name(
                    rest[p].name,
                ));
                if 0 <= p < rest.len() {
                    assert(rest[p] == files[p]);
                }
            }
        }
    } else {
        assert(files.filter(is_one) =~= places.map_values(|p: int| files[p]));
    }
}

proof fn places_by_name(files: Seq<FoundModel>) -> (places: Seq<int>)
    ensures
        are_question_places(files, places),
        by_name(files.filter(|f: FoundModel| is_question_name(f.name))) == places.map_values(
            |p: int| files[p],
        ),
{
    let chosen = files.filter(|f: FoundModel| is_question_name(f.name));
    let kept = kept_places(files);
    kept_places_are_all(files);
    let keys = chosen.map_values(|f: FoundModel| name_key(f.name));
    let sorted = order_of(keys);
    order_is_sorted(keys);
    let places = sorted.map_values(|i: int| kept[i]);
    assert(by_name(chosen) =~= places.map_values(|p: int| files[p]));
    assert forall|i: int, j: int| 0 <= i < j < places.len() implies places[i] != places[j] by {
        assert(sorted[i] != sorted[j]);
        assert(kept[sorted[i]] != kept[sorted[j]]);
    }
    assert forall|p: int| #[trigger] places.contains(p) <==> 0 <= p < files.len()
        && is_question_name(files[p].name) by {
        if places.contains(p) {
            let i = choose|i: int| 0 <= i < places.len() && places[i] == p;
            assert(kept[sorted[i]] == p);
            assert(kept.contains(p));
        }
        if 0 <= p < files.len() && is_question_name(files[p].name) {
            assert(kept.contains(p));
            let k = choose|k: int| 0 <= k < kept.len() && kept[k] == p;
            assert(sorted.contains(k));
            let i = choose|i: int| 0 <= i < sorted.len() && sorted[i] == k;
            assert(places[i] == p);
        }
    }
    assert forall|i: int, j: int| 0 <= i < j < places.len() implies is_named_first(
        files[#[trigger] places[i]].name,
        files[#[trigger] places[j]].name,
    ) by {
        assert(listed(keys, sorted[i], sorted[j]));
        assert(chosen[sorted[i]] == files[places[i]]);
        assert(chosen[sorted[j]] == files[places[j]]);
        name_keys_compare_bytes(files[places[i]].name, files[places[j]].name);
    }
    places
}

proof fn questions_of_each(files: Seq<FoundModel>)
    ensures
        match questions_of(files) {
            Ok(list) => {
                &&& list.len() == files.len()
                &&& forall|i: int|
                    0 <= i < files.len() ==> question_of(#[trigger] files[i]) == Ok::<
                        QuestionModel,
                        Seq<char>,
                    >(list[i])
            },
            Err(e) => exists|k: int|
                {
                    &&& 0 <= k < files.len()
                    &&& question_of(#[trigger] files[k]) == Err::<QuestionModel, Seq<char>>(e)
                    &&& forall|i: int| 0 <= i < k ==> question_of(#[trigger] files[i]) is Ok
                },
        },
    decreases files.len(),
{
    if files.len() > 0 {
        let rest = files.drop_last();
        questions_of_each(rest);
        match questions_of(rest) {
            Ok(list) => {
                assert forall|i: int| 0 <= i < rest.len() implies question_of(
                    #[trigger] files[i],
                ) == Ok::<QuestionModel, Seq<char>>(list[i]) by {
                    assert(rest[i] == files[i]);
                }
                assert(files[files.len() - 1] == files.last());
            },
            Err(e) => {
                let k = choose|k: int|
                    {
                        &&& 0 <= k < rest.len()
                        &&& question_of(#[trigger] rest[k]) == Err::<QuestionModel, Seq<char>>(e)
                        &&& forall|i: int| 0 <= i < k ==> question_of(#[trigger] rest[i]) is Ok
                    };
                assert(files[k] == rest[k]);
                assert forall|i: int| 0 <= i < k implies question_of(#[trigger] files[i]) is Ok by {
                    assert(files[i] == rest[i]);
                }
            },
        }
    }
}

/// A directory that loads gives a question for every question file, in the
/// order of the names: the one that its text is read as.
pub proof fn every_question_file_gives_its_question(dir: Seq<char>, files: Seq<FoundModel>)
    requires
        loaded(dir, Ok(files)) is Ok,
    ensures
        exists|places: Seq<int>|
            {
                let questions = loaded(dir, Ok(files))->Ok_0;
                &&& #[trigger] are_question_places(files, places)
                &&& places.len() > 0
                &&& questions.len() == places.len()
                &&& forall|i: int|
                    0 <= i < places.len() ==> {
                        let file = files[#[trigger] places[i]];
                        file.text is Ok && parsed(file.text->Ok_0) == Ok::<
                            QuestionModel,
                            Seq<char>,
                        >(questions[i])
                    }
            },
{
    let places = places_by_name(files);
    let list = places.map_values(|p: int| files[p]);
    questions_of_each(list);
    let questions = loaded(dir, Ok(files))->Ok_0;
    assert forall|i: int| 0 <= i < places.len() implies {
        let file = files[#[trigger] places[i]];
        file.text is Ok && parsed(file.text->Ok_0) == Ok::<QuestionModel, Seq<char>>(questions[i])
    } by {
        assert(question_of(list[i]) == Ok::<QuestionModel, Seq<char>>(questions[i]));
    }
    order_is_sorted(
        files.filter(|f: FoundModel| is_question_name(f.name)).map_values(
            |f: FoundModel| name_key(f.name),
        ),
    );
    assert(are_question_places(files, places));
}

/// A directory loads exactly if it can be listed, holds a question file, and
/// every question file can be read and is one. Otherwise the message names the
/// directory, or the first bad file by name, and says what is wrong.
pub proof fn why_a_directory_is_refused(dir: Seq<char>, files: Seq<FoundModel>, error: Seq<char>)
    ensures
        loaded(dir, Err(error)) == Err::<Seq<QuestionModel>, Seq<char>>(dir + ": "@ + error),
        (forall|p: int| 0 <= p < files.len() ==> !is_question_name((#[trigger] files[p]).name))
            ==> loaded(dir, Ok(files)) == Err::<Seq<QuestionModel>, Seq<char>>(
            dir + ": "@ + "no *.toml question files"@,
        ),
        loaded(dir, Ok(files)) is Ok <==> {
            &&& exists|p: int|
                0 <= p < files.len() && is_question_name((#[trigger] files[p]).name)
            &&& forall|p: int|
                0 <= p < files.len() && is_question_name((#[trigger] files[p]).name)
                    ==> files[p].text is Ok && parsed(files[p].text->Ok_0) is Ok
        },
        loaded(dir, Ok(files)) is Err && (exists|p: int|
            0 <= p < files.len() && is_question_name((#[trigger] files[p]).name)) ==> exists|
            places: Seq<int>,
            k: int,
        |
            #![trigger are_question_places(files, places), places[k]]
            {
                let bad = files[places[k]];
                &&& are_question_places(files, places)
                &&& 0 <= k < places.len()
                &&& forall|i: int|
                    0 <= i < k ==> files[#[trigger] places[i]].text is Ok && parsed(
                        files[places[i]].text->Ok_0,
                    ) is Ok
                &&& bad.text matches Err(e) ==> loaded(dir, Ok(files))->Err_0 == bad.path + ": "@
                    + e
                &&& bad.text matches Ok(text) ==> parsed(text) is Err && loaded(
                    dir,
                    Ok(files),
                )->Err_0 == bad.path + ": "@ + parsed(text)->Err_0
            },
{
    let places = places_by_name(files);
    let list = places.map_values(|p: int| files[p]);
    let chosen = files.filter(|f: FoundModel| is_question_name(f.name));
    questions_of_each(list);
    order_is_sorted(chosen.map_values(|f: FoundModel| name_key(f.name)));
    assert(chosen.len() == places.len());
    if exists|p: int| 0 <= p < files.len() && is_question_name((#[trigger] files[p]).name) {
        let p = choose|p: int| 0 <= p < files.len() && is_question_name((#[trigger] files[p]).name);
        assert(places.contains(p));
        assert(places.len() > 0);
    } else if places.len() > 0 {
        assert(places.contains(places[0]));
        assert(is_question_name(files[places[0]].name));
    }
    match loaded(dir, Ok(files)) {
        Ok(_) => {
            assert forall|p: int|
                0 <= p < files.len() && is_question_name(
                    (#[trigger] files[p]).name,
                ) implies files[p].text is Ok && parsed(files[p].text->Ok_0) is Ok by {
                assert(places.contains(p));
                let i = choose|i: int| 0 <= i < places.len() && places[i] == p;
                assert(question_of(list[i]) is Ok);
            }
        },
        Err(e) => {
            if places.len() > 0 {
                let k = choose|k: int|
                    {
                        &&& 0 <= k < list.len()
                        &&& question_of(#[trigger] list[k]) == Err::<QuestionModel, Seq<char>>(e)
                        &&& forall|i: int| 0 <= i < k ==> question_of(#[trigger] list[i]) is Ok
                    };
                let bad = files[places[k]];
                assert(places.contains(places[k]));
                assert(list[k] == bad);
                assert forall|i: int| 0 <= i < k implies files[#[trigger] places[i]].text is Ok
                    && parsed(files[places[i]].text->Ok_0) is Ok by {
                    assert(question_of(list[i]) is Ok);
                }
                assert(are_question_places(files, places));
            }
        },
    }
}

// What a question needs

/// Texts make up a question exactly if none of them is blank, there are two to
/// six choices, no two the same, and the answer is one of them. Then they are
/// what the question says, and the answer is the choice that counts as
/// correct.
pub proof fn what_a_question_needs(
    question: Seq<char>,
    choices: Seq<Seq<char>>,
    answer: Seq<char>,
    explanation: Seq<char>,
)
    ensures
        checked(question, choices, answer, explanation) is Ok <==> {
            &&& !is_blank(question) && !is_blank(explanation)
            &&& 2 <= choices.len() <= 6
            &&& forall|j: int| 0 <= j < choices.len() ==> !is_blank(#[trigger] choices[j])
            &&& choices.no_duplicates()
            &&& choices.contains(answer)
        },
        checked(question, choices, answer, explanation) matches Ok(q) ==> {
            &&& q.text == question
            &&& q.choices == choices
            &&& q.correct < choices.len() && choices[q.correct as int] == answer
            &&& q.explanation == explanation
        },
{
    if checked(question, choices, answer, explanation) is Ok {
        flawless_choices(choices);
        checked_is_playable(question, choices, answer, explanation);
    } else if choices.no_duplicates() && (forall|j: int|
        0 <= j < choices.len() ==> !is_blank(#[trigger] choices[j])) {
        assert forall|j: int| 0 <= j < choices.len() implies (#[trigger] choice_flaw(
            choices,
            j,
        )) is None by {
            if choices.take(j).contains(choices[j]) {
                let i = choose|i: int| 0 <= i < j && choices.take(j)[i] == choices[j];
                assert(choices[i] == choices[j]);
            }
        }
        no_flaw_up_to(choices, choices.len() as int);
    }
}

proof fn the_first_flaw(choices: Seq<Seq<char>>, k: int) -> (j: int)
    requires
        0 <= k,
        first_flaw(choices, k) is Some,
    ensures
        k <= j < choices.len(),
        first_flaw(choices, k) == choice_flaw(choices, j),
        choice_flaw(choices, j) is Some,
        forall|i: int| k <= i < j ==> (#[trigger] choice_flaw(choices, i)) is None,
    decreases choices.len() - k,
{
    if choice_flaw(choices, k) is Some {
        k
    } else {
        the_first_flaw(choices, k + 1)
    }
}

/// What is said of texts that make up no question: the first thing that is
/// wrong, in this order: the question is blank; there are too few or too many
/// choices; the first choice that is blank or was there before; the answer is
/// no choice; the explanation is blank.
pub proof fn why_a_question_is_refused(
    question: Seq<char>,
    choices: Seq<Seq<char>>,
    answer: Seq<char>,
    explanation: Seq<char>,
)
    requires
        checked(question, choices, answer, explanation) is Err,
    ensures
        ({
            let e = checked(question, choices, answer, explanation)->Err_0;
            let sound = |n: int|
                forall|i: int|
                    #![trigger choices[i]]
                    0 <= i < n ==> !is_blank(choices[i]) && forall|h: int|
                        0 <= h < i ==> choices[h] != choices[i];
            if is_blank(question) {
                e == "question text is empty"@
            } else if choices.len() < 2 || choices.len() > 6 {
                e == "needs between 2 and "@ + decimal(6) + " choices, has "@ + decimal(
                    choices.len(),
                )
            } else if !sound(choices.len() as int) {
                exists|j: int|
                    {
                        &&& 0 <= j < choices.len()
                        &&& #[trigger] sound(j)
                        &&& if is_blank(choices[j]) {
                            e == "choice "@ + decimal((j + 1) as nat) + " is empty"@
                        } else {
                            &&& exists|h: int| 0 <= h < j && choices[h] == choices[j]
                            &&& e == "choice "@ + debug_text(choices[j]) + " is listed twice"@
                        }
                    }
            } else if !choices.contains(answer) {
                e == "answer "@ + debug_text(answer) + " is not one of the choices"@
            } else {
                is_blank(explanation) && e == "explanation is empty"@
            }
        }),
{
    let e = checked(question, choices, answer, explanation)->Err_0;
    let sound = |n: int|
        forall|i: int|
            #![trigger choices[i]]
            0 <= i < n ==> !is_blank(choices[i]) && forall|h: int|
                0 <= h < i ==> choices[h] != choices[i];
    if first_flaw(choices, 0) is Some {
        let j = the_first_flaw(choices, 0);
        assert forall|i: int|
            #![trigger choices[i]]
            0 <= i < j implies !is_blank(choices[i]) && forall|h: int|
            0 <= h < i ==> choices[h] != choices[i] by {
            assert(choice_flaw(choices, i) is None);
            assert forall|h: int| 0 <= h < i implies choices[h] != choices[i] by {
                assert(choices.take(i)[h] == choices[h]);
            }
        }
        assert(sound(j));
        if !is_blank(choices[j]) {
            let h = choose|h: int| 0 <= h < j && choices.take(j)[h] == choices[j];
            assert(choices[h] == choices[j]);
        }
        assert(!sound(choices.len() as int));
    } else {
        flawless_choices(choices);
        assert(sound(choices.len() as int));
    }
}

// What a file says

/// No key is listed twice.
pub open spec fn keys_differ(entries: Seq<EntryModel>) -> bool {
    forall|i: int, j: int|
        0 <= i < j < entries.len() ==> (#[trigger] entries[i]).key != (#[trigger] entries[j]).key
}

proof fn keys_are_distinct()
    ensures
        "question"@ != "choices"@,
        "question"@ != "answer"@,
        "question"@ != "explanation"@,
        "choices"@ != "answer"@,
        "choices"@ != "explanation"@,
        "answer"@ != "explanation"@,
{
    reveal_strlit("question");
    reveal_strlit("choices");
    reveal_strlit("answer");
    reveal_strlit("explanation");
    assert("question"@.len() == 8 && "choices"@.len() == 7 && "answer"@.len() == 6
        && "explanation"@.len() == 11);
}

proof fn what_entries_make_up(entries: Seq<EntryModel>)
    requires
        keys_differ(entries),
    ensures
        with_entries(entries) matches Ok(file) ==> {
            &&& forall|i: int|
                0 <= i < entries.len() ==> {
                    let entry = #[trigger] entries[i];
                    ||| entry.key == "question"@ && file.question is Some && entry.text == Ok::<
                        Seq<char>,
                        Seq<char>,
                    >(file.question->0)
                    ||| entry.key == "choices"@ && file.choices is Some && entry.texts == Ok::<
                        Seq<Seq<char>>,
                        Seq<char>,
                    >(file.choices->0)
                    ||| entry.key == "answer"@ && file.answer is Some && entry.text == Ok::<
                        Seq<char>,
                        Seq<char>,
                    >(file.answer->0)
                    ||| entry.key == "explanation"@ && file.explanation is Some && entry.text
                        == Ok::<Seq<char>, Seq<char>>(file.explanation->0)
                }
            &&& file.question is Some ==> exists|i: int|
                0 <= i < entries.len() && (#[trigger] entries[i]).key == "question"@
            &&& file.choices is Some ==> exists|i: int|
                0 <= i < entries.len() && (#[trigger] entries[i]).key == "choices"@
            &&& file.answer is Some ==> exists|i: int|
                0 <= i < entries.len() && (#[trigger] entries[i]).key == "answer"@
            &&& file.explanation is Some ==> exists|i: int|
                0 <= i < entries.len() && (#[trigger] entries[i]).key == "explanation"@
        },
        with_entries(entries) is Err ==> exists|i: int|
            {
                let entry = #[trigger] entries[i];
                &&& 0 <= i < entries.len()
                &&& if entry.key == "choices"@ {
                    entry.texts is Err
                } else if entry.key == "question"@ || entry.key == "answer"@ || entry.key
                    == "explanation"@ {
                    entry.text is Err
                } else {
                    true
                }
            },
    decreases entries.len(),
{
    keys_are_distinct();
    if entries.len() > 0 {
        let rest = entries.drop_last();
        let last = entries.len() - 1;
        assert forall|i: int, j: int| 0 <= i < j < rest.len() implies (#[trigger] rest[i]).key != (
        #[trigger] rest[j]).key by {
            assert(entries[i].key != entries[j].key);
        }
        what_entries_make_up(rest);
        assert forall|i: int| 0 <= i < rest.len() implies (#[trigger] entries[i]) == rest[i]
            && entries[i].key != entries[last].key by {
        }
        if with_entries(rest) is Err {
            let i = choose|i: int|
                {
                    let entry = #[trigger] rest[i];
                    &&& 0 <= i < rest.len()
                    &&& if entry.key == "choices"@ {
                        entry.texts is Err
                    } else if entry.key == "question"@ || entry.key == "answer"@ || entry.key
                        == "explanation"@ {
                        entry.text is Err
                    } else {
                        true
                    }
                };
            assert(entries[i] == rest[i]);
        } else if with_entries(entries) is Err {
            assert(entries[last] == entries.last());
        } else {
            let file = with_entries(entries)->Ok_0;
            let before = with_entries(rest)->Ok_0;
            if before.question is Some {
                let i = choose|i: int|
                    0 <= i < rest.len() && (#[trigger] rest[i]).key == "question"@;
                assert(entries[i].key == "question"@);
            }
            if before.choices is Some {
                let i = choose|i: int| 0 <= i < rest.len() && (#[trigger] rest[i]).key == "choices"@;
                assert(entries[i].key == "choices"@);
            }
            if before.answer is Some {
                let i = choose|i: int| 0 <= i < rest.len() && (#[trigger] rest[i]).key == "answer"@;
                assert(entries[i].key == "answer"@);
            }
            if before.explanation is Some {
                let i = choose|i: int|
                    0 <= i < rest.len() && (#[trigger] rest[i]).key == "explanation"@;
                assert(entries[i].key == "explanation"@);
            }
            assert(entries[last].key == entries.last().key);
        }
    }
}

/// The question of a file says what the entries of the file say, whatever
/// their order: all four keys are there and no other, and the answer is the
/// choice that counts as correct.
pub proof fn a_question_says_what_its_file_says(place: Seq<char>, entries: Seq<EntryModel>)
    requires
        keys_differ(entries),
        described(place, entries) is Ok,
    ensures
        entries.len() == 4,
        ({
            let q = described(place, entries)->Ok_0;
            forall|i: int|
                0 <= i < entries.len() ==> {
                    let entry = #[trigger] entries[i];
                    ||| entry.key == "question"@ && entry.text == Ok::<Seq<char>, Seq<char>>(
                        q.text,
                    )
                    ||| entry.key == "choices"@ && entry.texts == Ok::<Seq<Seq<char>>, Seq<char>>(
                        q.choices,
                    )
                    ||| entry.key == "answer"@ && q.correct < q.choices.len() && entry.text == Ok::<
                        Seq<char>,
                        Seq<char>,
                    >(q.choices[q.correct as int])
                    ||| entry.key == "explanation"@ && entry.text == Ok::<Seq<char>, Seq<char>>(
                        q.explanation,
                    )
                }
        }),
{
    keys_are_distinct();
    what_entries_make_up(entries);
    let file = with_entries(entries)->Ok_0;
    what_a_question_needs(file.question->0, file.choices->0, file.answer->0, file.explanation->0);
    let a = choose|i: int| 0 <= i < entries.len() && (#[trigger] entries[i]).key == "question"@;
    let b = choose|i: int| 0 <= i < entries.len() && (#[trigger] entries[i]).key == "choices"@;
    let c = choose|i: int| 0 <= i < entries.len() && (#[trigger] entries[i]).key == "answer"@;
    let d = choose|i: int| 0 <= i < entries.len() && (#[trigger] entries[i]).key == "explanation"@;
    let four = set![a, b, c, d];
    assert forall|i: int| 0 <= i < entries.len() implies #[trigger] four.contains(i) by {
        let key = entries[i].key;
        assert(key == "question"@ || key == "choices"@ || key == "answer"@ || key
            == "explanation"@);
        let k = if key == "question"@ {
            a
        } else if key == "choices"@ {
            b
        } else if key == "answer"@ {
            c
        } else {
            d
        };
        assert(entries[k].key == key);
        if i < k {
            assert(entries[i].key != entries[k].key);
        } else if k < i {
            assert(entries[k].key != entries[i].key);
        }
    }
    assert(a != b && a != c && a != d && b != c && b != d && c != d);
    let n = entries.len() as int;
    if n > 4 {
        assert(four.contains(0) && four.contains(1) && four.contains(2) && four.contains(3)
            && four.contains(4));
    }
}

/// A file with the four keys in any order, each with a value of its kind, is
/// the question that these values make up, or is refused for what is wrong
/// with them.
pub proof fn a_complete_file_is_checked(
    place: Seq<char>,
    entries: Seq<EntryModel>,
    question: Seq<char>,
    choices: Seq<Seq<char>>,
    answer: Seq<char>,
    explanation: Seq<char>,
)
    requires
        keys_differ(entries),
        entries.len() == 4,
        forall|i: int|
            0 <= i < entries.len() ==> {
                let entry = #[trigger] entries[i];
                ||| entry.key == "question"@ && entry.text == Ok::<Seq<char>, Seq<char>>(question)
                ||| entry.key == "choices"@ && entry.texts == Ok::<Seq<Seq<char>>, Seq<char>>(
                    choices,
                )
                ||| entry.key == "answer"@ && entry.text == Ok::<Seq<char>, Seq<char>>(answer)
                ||| entry.key == "explanation"@ && entry.text == Ok::<Seq<char>, Seq<char>>(
                    explanation,
                )
            },
    ensures
        described(place, entries) == checked(question, choices, answer, explanation),
{
    keys_are_distinct();
    what_entries_make_up(entries);
    let file = with_entries(entries)->Ok_0;
    assert(entries[0].key != entries[1].key && entries[0].key != entries[2].key && entries[0].key
        != entries[3].key && entries[1].key != entries[2].key && entries[1].key != entries[3].key
        && entries[2].key != entries[3].key);
}

/// A text is read through the entries that the `toml` crate finds in it.
pub proof fn a_text_is_read_by_its_entries(text: Seq<char>)
    ensures
        toml_entries(text) matches Ok(entries) ==> parsed(text) == described(
            toml_place(text),
            entries,
        ),
        toml_entries(text) matches Err(e) ==> parsed(text) == Err::<QuestionModel, Seq<char>>(e),
{
}

} // verus!
