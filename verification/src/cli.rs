//! The command line: what the arguments ask for, and what there is to say
//! about them.

use crate::game::Settings;
use crate::quiz::{text_model, texts};
use crate::state::SettingsModel;
use crate::text::{
    chars_of, debug, debug_text, decimal, push_decimal, read_unsigned, same, unsigned,
    written_numbers_are_read,
};
use vstd::prelude::*;

verus! {

pub const USAGE: &'static str = "usage: nixcon-quiz --questions DIR [options]
       nixcon-quiz --check DIR

  --questions DIR            directory with one TOML file per question
  --check DIR                validate the question files and exit
  --listen ADDR:PORT         address to serve on (default 127.0.0.1:8080)
  --public-url URL           join address shown on the /spectate screen
                             (default: the host the screen was loaded from)
  --title TEXT               page title (default \"NixCon Quiz\")
  --question-seconds N       time to answer each question (default 20)
  --reveal-seconds N         how long the right answer is shown (default 8)
  --round-questions N        questions per round, then leaderboard and points reset (default 10)
  --leaderboard-seconds N    how long the leaderboard is shown (default 30)";

/// What the arguments set.
pub struct Options {
    pub questions: Option<String>,
    pub check: Option<String>,
    pub listen: String,
    pub public_url: Option<String>,
    pub settings: Settings,
}

#[verifier::ext_equal]
pub struct OptionsModel {
    pub questions: Option<Seq<char>>,
    pub check: Option<Seq<char>>,
    pub listen: Seq<char>,
    pub public_url: Option<Seq<char>>,
    pub settings: SettingsModel,
}

impl Options {
    pub open spec fn model(&self) -> OptionsModel {
        OptionsModel {
            questions: text_model(self.questions),
            check: text_model(self.check),
            listen: self.listen@,
            public_url: text_model(self.public_url),
            settings: self.settings.model(),
        }
    }
}

/// What holds without any arguments.
pub open spec fn default_options() -> OptionsModel {
    OptionsModel {
        questions: None,
        check: None,
        listen: "127.0.0.1:8080"@,
        public_url: None,
        settings: SettingsModel {
            title: "NixCon Quiz"@,
            question_seconds: 20,
            reveal_seconds: 8,
            round_questions: 10,
            leaderboard_seconds: 30,
        },
    }
}

impl Default for Options {
    fn default() -> (r: Self)
        ensures
            r.model() == default_options(),
    {
        Options {
            questions: None,
            check: None,
            listen: "127.0.0.1:8080".to_owned(),
            public_url: None,
            settings: Settings::default(),
        }
    }
}

/// What is to be done.
pub enum Request {
    /// Print how the program is used.
    Help,
    /// Say what is wrong with the arguments, and how the program is used.
    Wrong(String),
    /// Validate the question files of a directory.
    Check(String),
    /// Serve the questions of a directory.
    Serve { dir: String, listen: String, public_url: Option<String>, settings: Settings },
}

pub enum RequestModel {
    Help,
    Wrong(Seq<char>),
    Check(Seq<char>),
    Serve {
        dir: Seq<char>,
        listen: Seq<char>,
        public_url: Option<Seq<char>>,
        settings: SettingsModel,
    },
}

impl Request {
    pub open spec fn model(&self) -> RequestModel {
        match self {
            Request::Help => RequestModel::Help,
            Request::Wrong(e) => RequestModel::Wrong(e@),
            Request::Check(dir) => RequestModel::Check(dir@),
            Request::Serve { dir, listen, public_url, settings } => RequestModel::Serve {
                dir: dir@,
                listen: listen@,
                public_url: text_model(*public_url),
                settings: settings.model(),
            },
        }
    }
}

/// A number above zero and no larger than `limit`.
pub open spec fn positive_number(arg: Seq<char>, value: Seq<char>, limit: nat) -> Result<
    nat,
    Seq<char>,
> {
    match unsigned(value, limit) {
        Some(n) => if n > 0 {
            Ok(n)
        } else {
            Err(arg + " needs a positive number, got "@ + debug_text(value))
        },
        None => Err(arg + " needs a positive number, got "@ + debug_text(value)),
    }
}

/// Reads the number of an argument.
pub fn positive(arg: &str, value: &str, limit: u64) -> (r: Result<u64, String>)
    ensures
        match positive_number(arg@, value@, limit as nat) {
            Ok(n) => r is Ok && r->Ok_0 == n,
            Err(e) => r is Err && r->Err_0@ == e,
        },
{
    let chars = chars_of(value);
    let number = read_unsigned(&chars, 0, chars.len(), limit);
    assert(chars@.subrange(0, chars@.len() as int) =~= value@);
    if let Some(n) = number {
        if n > 0 {
            return Ok(n);
        }
    }
    let mut message = arg.to_owned();
    message.append(" needs a positive number, got ");
    message.append(debug(value).as_str());
    Err(message)
}

/// Whether an argument is followed by a value.
pub open spec fn takes_value(arg: Seq<char>) -> bool {
    ||| arg == "--questions"@
    ||| arg == "--check"@
    ||| arg == "--listen"@
    ||| arg == "--public-url"@
    ||| arg == "--title"@
    ||| arg == "--question-seconds"@
    ||| arg == "--reveal-seconds"@
    ||| arg == "--round-questions"@
    ||| arg == "--leaderboard-seconds"@
}

/// The options after an argument with its value.
pub open spec fn with_option(o: OptionsModel, arg: Seq<char>, value: Seq<char>) -> Result<
    OptionsModel,
    Seq<char>,
> {
    if arg == "--questions"@ {
        Ok(OptionsModel { questions: Some(value), ..o })
    } else if arg == "--check"@ {
        Ok(OptionsModel { check: Some(value), ..o })
    } else if arg == "--listen"@ {
        Ok(OptionsModel { listen: value, ..o })
    } else if arg == "--public-url"@ {
        Ok(OptionsModel { public_url: Some(value), ..o })
    } else if arg == "--title"@ {
        Ok(OptionsModel { settings: SettingsModel { title: value, ..o.settings }, ..o })
    } else if arg == "--round-questions"@ {
        match positive_number(arg, value, u32::MAX as nat) {
            Ok(n) => Ok(
                OptionsModel {
                    settings: SettingsModel { round_questions: n as u32, ..o.settings },
                    ..o
                },
            ),
            Err(e) => Err(e),
        }
    } else {
        match positive_number(arg, value, u64::MAX as nat) {
            Ok(n) => Ok(
                OptionsModel {
                    settings: if arg == "--question-seconds"@ {
                        SettingsModel { question_seconds: n as u64, ..o.settings }
                    } else if arg == "--reveal-seconds"@ {
                        SettingsModel { reveal_seconds: n as u64, ..o.settings }
                    } else {
                        SettingsModel { leaderboard_seconds: n as u64, ..o.settings }
                    },
                    ..o
                },
            ),
            Err(e) => Err(e),
        }
    }
}

/// What the options ask for, when all arguments were read.
pub open spec fn request_of(o: OptionsModel) -> RequestModel {
    match (o.check, o.questions) {
        (Some(dir), _) => RequestModel::Check(dir),
        (None, Some(dir)) => RequestModel::Serve {
            dir,
            listen: o.listen,
            public_url: o.public_url,
            settings: o.settings,
        },
        (None, None) => RequestModel::Wrong("--questions is required"@),
    }
}

/// What the arguments ask for, on top of these options. The first that is
/// wrong or asks for help decides.
pub open spec fn requested(args: Seq<Seq<char>>, o: OptionsModel) -> RequestModel
    decreases args.len(),
{
    if args.len() == 0 {
        request_of(o)
    } else if takes_value(args[0]) {
        if args.len() < 2 {
            RequestModel::Wrong(args[0] + " needs a value"@)
        } else {
            match with_option(o, args[0], args[1]) {
                Ok(next) => requested(args.skip(2), next),
                Err(e) => RequestModel::Wrong(e),
            }
        }
    } else if args[0] == "-h"@ || args[0] == "--help"@ {
        RequestModel::Help
    } else {
        RequestModel::Wrong("unknown argument "@ + debug_text(args[0]))
    }
}

fn is_option(arg: &str) -> (r: bool)
    ensures
        r == takes_value(arg@),
{
    same(arg, "--questions") || same(arg, "--check") || same(arg, "--listen") || same(
        arg,
        "--public-url",
    ) || same(arg, "--title") || same(arg, "--question-seconds") || same(arg, "--reveal-seconds")
        || same(arg, "--round-questions") || same(arg, "--leaderboard-seconds")
}

fn set_option(options: &mut Options, arg: &str, value: &String) -> (r: Result<(), String>)
    ensures
        match with_option(old(options).model(), arg@, value@) {
            Ok(next) => r is Ok && final(options).model() == next,
            Err(e) => r is Err && r->Err_0@ == e,
        },
{
    if same(arg, "--questions") {
        options.questions = Some(value.clone());
    } else if same(arg, "--check") {
        options.check = Some(value.clone());
    } else if same(arg, "--listen") {
        options.listen = value.clone();
    } else if same(arg, "--public-url") {
        options.public_url = Some(value.clone());
    } else if same(arg, "--title") {
        options.settings.title = value.clone();
    } else if same(arg, "--round-questions") {
        match positive(arg, value.as_str(), u32::MAX as u64) {
            Ok(n) => {
                options.settings.round_questions = n as u32;
            },
            Err(e) => {
                return Err(e);
            },
        }
    } else {
        match positive(arg, value.as_str(), u64::MAX) {
            Ok(n) => {
                if same(arg, "--question-seconds") {
                    options.settings.question_seconds = n;
                } else if same(arg, "--reveal-seconds") {
                    options.settings.reveal_seconds = n;
                } else {
                    options.settings.leaderboard_seconds = n;
                }
            },
            Err(e) => {
                return Err(e);
            },
        }
    }
    Ok(())
}

/// What the arguments ask for.
pub fn read_args(args: &Vec<String>) -> (r: Request)
    ensures
        r.model() == requested(texts(args@), default_options()),
{
    let mut options = Options::default();
    let ghost all = texts(args@);
    let mut i: usize = 0;
    assert(all.skip(0) =~= all);
    while i < args.len()
        invariant
            i <= args@.len(),
            all == texts(args@),
            requested(all, default_options()) == requested(all.skip(i as int), options.model()),
        decreases args@.len() - i,
    {
        let ghost rest = all.skip(i as int);
        assert(rest[0] == args@[i as int]@);
        let arg = args[i].as_str();
        if is_option(arg) {
            if args.len() - i < 2 {
                let mut message = arg.to_owned();
                message.append(" needs a value");
                return Request::Wrong(message);
            }
            assert(rest[1] == args@[i + 1]@);
            assert(rest.skip(2) =~= all.skip(i + 2));
            match set_option(&mut options, arg, &args[i + 1]) {
                Ok(()) => {},
                Err(e) => {
                    return Request::Wrong(e);
                },
            }
            i += 2;
        } else if same(arg, "-h") || same(arg, "--help") {
            return Request::Help;
        } else {
            let mut message = "unknown argument ".to_owned();
            message.append(debug(arg).as_str());
            return Request::Wrong(message);
        }
    }
    if let Some(dir) = options.check {
        return Request::Check(dir);
    }
    match options.questions {
        Some(dir) => Request::Serve {
            dir,
            listen: options.listen,
            public_url: options.public_url,
            settings: options.settings,
        },
        None => Request::Wrong("--questions is required".to_owned()),
    }
}

/// What to print for arguments that are wrong.
pub fn usage_error(error: &str) -> (r: String)
    ensures
        r@ == error@ + "\n\n"@ + USAGE@,
{
    let mut out = error.to_owned();
    out.append("\n\n");
    out.append(USAGE);
    out
}

/// What to print for question files that are valid.
pub fn check_line(dir: &str, questions: usize) -> (r: String)
    ensures
        r@ == dir@ + ": "@ + decimal(questions as nat) + " questions, ok"@,
{
    let mut out = dir.to_owned();
    out.append(": ");
    push_decimal(&mut out, questions as u64);
    out.append(" questions, ok");
    out
}

/// What to print when the server starts.
pub fn serving_line(questions: usize, dir: &str, address: &str) -> (r: String)
    ensures
        r@ == "serving "@ + decimal(questions as nat) + " questions from "@ + dir@
            + " on http://"@ + address@,
{
    let mut out = "serving ".to_owned();
    push_decimal(&mut out, questions as u64);
    out.append(" questions from ");
    out.append(dir);
    out.append(" on http://");
    out.append(address);
    out
}

// What the arguments mean

proof fn arguments_are_distinct()
    ensures
        "--questions"@.len() == 11,
        "--check"@.len() == 7,
        "--listen"@.len() == 8,
        "--public-url"@.len() == 12,
        "--title"@.len() == 7,
        "--question-seconds"@.len() == 18,
        "--reveal-seconds"@.len() == 16,
        "--round-questions"@.len() == 17,
        "--leaderboard-seconds"@.len() == 21,
        "-h"@.len() == 2,
        "--help"@.len() == 6,
        "--check"@ != "--title"@,
{
    reveal_strlit("--questions");
    reveal_strlit("--check");
    reveal_strlit("--listen");
    reveal_strlit("--public-url");
    reveal_strlit("--title");
    reveal_strlit("--question-seconds");
    reveal_strlit("--reveal-seconds");
    reveal_strlit("--round-questions");
    reveal_strlit("--leaderboard-seconds");
    reveal_strlit("-h");
    reveal_strlit("--help");
    assert("--check"@[2] == 'c' && "--title"@[2] == 't');
}

proof fn a_pair_is_read(arg: Seq<char>, value: Seq<char>, rest: Seq<Seq<char>>, o: OptionsModel)
    requires
        takes_value(arg),
    ensures
        requested(seq![arg, value] + rest, o) == match with_option(o, arg, value) {
            Ok(next) => requested(rest, next),
            Err(e) => RequestModel::Wrong(e),
        },
{
    let args = seq![arg, value] + rest;
    assert(args.skip(2) =~= rest);
    assert(args[0] == arg && args[1] == value);
}

/// An argument with a text sets just what it is named for, and the arguments
/// after it are read with that.
pub proof fn texts_are_set(value: Seq<char>, rest: Seq<Seq<char>>, o: OptionsModel)
    ensures
        requested(seq!["--questions"@, value] + rest, o) == requested(
            rest,
            OptionsModel { questions: Some(value), ..o },
        ),
        requested(seq!["--check"@, value] + rest, o) == requested(
            rest,
            OptionsModel { check: Some(value), ..o },
        ),
        requested(seq!["--listen"@, value] + rest, o) == requested(
            rest,
            OptionsModel { listen: value, ..o },
        ),
        requested(seq!["--public-url"@, value] + rest, o) == requested(
            rest,
            OptionsModel { public_url: Some(value), ..o },
        ),
        requested(seq!["--title"@, value] + rest, o) == requested(
            rest,
            OptionsModel { settings: SettingsModel { title: value, ..o.settings }, ..o },
        ),
{
    arguments_are_distinct();
    a_pair_is_read("--questions"@, value, rest, o);
    a_pair_is_read("--check"@, value, rest, o);
    a_pair_is_read("--listen"@, value, rest, o);
    a_pair_is_read("--public-url"@, value, rest, o);
    a_pair_is_read("--title"@, value, rest, o);
}

/// An argument with a number sets just the timing it is named for. The number
/// is above zero and fits.
pub proof fn numbers_are_set(n: u64, rest: Seq<Seq<char>>, o: OptionsModel)
    requires
        n > 0,
    ensures
        requested(seq!["--question-seconds"@, decimal(n as nat)] + rest, o) == requested(
            rest,
            OptionsModel { settings: SettingsModel { question_seconds: n, ..o.settings }, ..o },
        ),
        requested(seq!["--reveal-seconds"@, decimal(n as nat)] + rest, o) == requested(
            rest,
            OptionsModel { settings: SettingsModel { reveal_seconds: n, ..o.settings }, ..o },
        ),
        requested(seq!["--leaderboard-seconds"@, decimal(n as nat)] + rest, o) == requested(
            rest,
            OptionsModel { settings: SettingsModel { leaderboard_seconds: n, ..o.settings }, ..o },
        ),
        n <= u32::MAX ==> requested(seq!["--round-questions"@, decimal(n as nat)] + rest, o)
            == requested(
            rest,
            OptionsModel {
                settings: SettingsModel { round_questions: n as u32, ..o.settings },
                ..o
            },
        ),
        n > u32::MAX ==> requested(seq!["--round-questions"@, decimal(n as nat)] + rest, o)
            is Wrong,
{
    arguments_are_distinct();
    written_numbers_are_read(n as nat, u64::MAX as nat, Seq::empty());
    written_numbers_are_read(n as nat, u32::MAX as nat, Seq::empty());
    let value = decimal(n as nat);
    a_pair_is_read("--question-seconds"@, value, rest, o);
    a_pair_is_read("--reveal-seconds"@, value, rest, o);
    a_pair_is_read("--leaderboard-seconds"@, value, rest, o);
    a_pair_is_read("--round-questions"@, value, rest, o);
}

/// Whether an argument is one with a number.
pub open spec fn takes_number(arg: Seq<char>) -> bool {
    ||| arg == "--question-seconds"@
    ||| arg == "--reveal-seconds"@
    ||| arg == "--leaderboard-seconds"@
    ||| arg == "--round-questions"@
}

/// A value that is no number, is zero, or does not fit is refused with what it
/// was given for.
pub proof fn other_values_are_refused(
    arg: Seq<char>,
    value: Seq<char>,
    rest: Seq<Seq<char>>,
    o: OptionsModel,
)
    requires
        takes_number(arg),
        unsigned(value, u64::MAX as nat) is None || unsigned(value, u64::MAX as nat) == Some(0nat),
    ensures
        requested(seq![arg, value] + rest, o) == RequestModel::Wrong(
            arg + " needs a positive number, got "@ + debug_text(value),
        ),
{
    arguments_are_distinct();
    a_pair_is_read(arg, value, rest, o);
}

/// Help is given where it is asked for. An argument that is not known is
/// refused, and so is one whose value is missing.
pub proof fn what_else_is_said(arg: Seq<char>, rest: Seq<Seq<char>>, o: OptionsModel)
    ensures
        requested(seq!["-h"@] + rest, o) == RequestModel::Help,
        requested(seq!["--help"@] + rest, o) == RequestModel::Help,
        takes_value(arg) ==> requested(seq![arg], o) == RequestModel::Wrong(
            arg + " needs a value"@,
        ),
        !takes_value(arg) && arg != "-h"@ && arg != "--help"@ ==> requested(seq![arg] + rest, o)
            == RequestModel::Wrong("unknown argument "@ + debug_text(arg)),
{
    arguments_are_distinct();
    let short = seq!["-h"@] + rest;
    let long = seq!["--help"@] + rest;
    let other = seq![arg] + rest;
    assert(short[0] == "-h"@ && long[0] == "--help"@ && other[0] == arg);
    assert(seq![arg][0] == arg && seq![arg].len() == 1);
}

/// When all arguments are read, a directory to check is checked; otherwise one
/// with questions is served, with everything that was set. One of the two has
/// to be given.
pub proof fn what_is_done(o: OptionsModel)
    ensures
        ({
            let r = requested(Seq::empty(), o);
            &&& o.check is Some ==> r == RequestModel::Check(o.check->0)
            &&& o.check is None && o.questions is Some ==> r == (RequestModel::Serve {
                dir: o.questions->0,
                listen: o.listen,
                public_url: o.public_url,
                settings: o.settings,
            })
            &&& o.check is None && o.questions is None ==> r == RequestModel::Wrong(
                "--questions is required"@,
            )
        }),
{
}

/// Without other arguments questions are served on this machine alone, twenty
/// seconds each, ten to a round.
pub proof fn what_holds_without_arguments(dir: Seq<char>)
    ensures
        requested(seq!["--questions"@, dir], default_options()) == (RequestModel::Serve {
            dir,
            listen: "127.0.0.1:8080"@,
            public_url: None,
            settings: SettingsModel {
                title: "NixCon Quiz"@,
                question_seconds: 20,
                reveal_seconds: 8,
                round_questions: 10,
                leaderboard_seconds: 30,
            },
        }),
        requested(seq!["--check"@, dir], default_options()) == RequestModel::Check(dir),
        requested(Seq::empty(), default_options()) == RequestModel::Wrong(
            "--questions is required"@,
        ),
{
    let o = default_options();
    texts_are_set(dir, Seq::empty(), o);
    assert(seq!["--questions"@, dir] + Seq::<Seq<char>>::empty() =~= seq!["--questions"@, dir]);
    assert(seq!["--check"@, dir] + Seq::<Seq<char>>::empty() =~= seq!["--check"@, dir]);
    what_is_done(OptionsModel { questions: Some(dir), ..o });
    what_is_done(OptionsModel { check: Some(dir), ..o });
    what_is_done(o);
}

} // verus!
