//! Player names are handed out by the server, never chosen, so the
//! leaderboard on the big screen stays safe for work.

use crate::random::choose_word;
use crate::text::{decimal, decimal_is_injective, push_decimal};
use vstd::hash_set::StringHashSet;
use vstd::prelude::*;

verus! {

pub const ADJECTIVES: [&'static str; 24] = [
    "Lazy",
    "Pure",
    "Hermetic",
    "Reproducible",
    "Declarative",
    "Immutable",
    "Atomic",
    "Functional",
    "Sandboxed",
    "Pinned",
    "Cached",
    "Evaluated",
    "Substituted",
    "Signed",
    "Fixed-Output",
    "Content-Addressed",
    "Impure",
    "Recursive",
    "Unfree",
    "Deduplicated",
    "Garbage-Collected",
    "Cross-Compiled",
    "Bootstrapped",
    "Overridden",
];

pub const NOUNS: [&'static str; 24] = [
    "Derivation",
    "Flake",
    "Closure",
    "Overlay",
    "Thunk",
    "Snowflake",
    "Hydra",
    "Channel",
    "Module",
    "Store Path",
    "Lambda",
    "Attrset",
    "Fixpoint",
    "Substituter",
    "Generation",
    "Profile",
    "Builder",
    "Callpackage",
    "Nixling",
    "Hash",
    "Rebuild",
    "Shell",
    "Sandbox",
    "Output",
];

/// How often a plain name is drawn before one is looked for.
pub const TRIES: usize = 32;

/// The names that are in use.
pub struct Taken {
    set: StringHashSet,
}

impl vstd::view::View for Taken {
    type V = Set<Seq<char>>;

    closed spec fn view(&self) -> Set<Seq<char>> {
        self.set@
    }
}

impl Taken {
    /// No name is in use.
    pub fn new() -> (r: Taken)
        ensures
            r@ == Set::<Seq<char>>::empty(),
    {
        Taken { set: StringHashSet::new() }
    }

    /// Puts a name into use.
    pub fn insert(&mut self, name: String)
        ensures
            final(self)@ == old(self)@.insert(name@),
    {
        self.set.insert(name);
    }

    /// Gives a name back.
    pub fn remove(&mut self, name: &str)
        ensures
            final(self)@ == old(self)@.remove(name@),
    {
        self.set.remove(name);
    }

    /// Whether a name is in use.
    pub fn contains(&self, name: &str) -> (r: bool)
        ensures
            r == self@.contains(name@),
    {
        self.set.contains(name)
    }
}

/// An adjective and a noun.
pub open spec fn is_plain_name(name: Seq<char>) -> bool {
    exists|a: int, n: int|
        0 <= a < ADJECTIVES@.len() && 0 <= n < NOUNS@.len() && name == #[trigger] plain(a, n)
}

/// The name made of the given adjective and noun.
pub open spec fn plain(a: int, n: int) -> Seq<char> {
    ADJECTIVES@[a]@ + " "@ + NOUNS@[n]@
}

/// A name with a number appended.
pub open spec fn numbered(base: Seq<char>, n: nat) -> Seq<char> {
    base + " "@ + decimal(n)
}

/// Names drawn by chance: plain ones, as many as are tried and one more.
pub open spec fn are_draws(draws: Seq<Seq<char>>) -> bool {
    &&& draws.len() == TRIES + 1
    &&& forall|i: int| 0 <= i < draws.len() ==> is_plain_name(#[trigger] draws[i])
}

/// The smallest number from `n` on that makes a free name of `base`.
pub open spec fn is_first_free(taken: Set<Seq<char>>, base: Seq<char>, n: nat, from: nat) -> bool {
    &&& n >= from
    &&& !taken.contains(numbered(base, n))
    &&& forall|m: nat| from <= m < n ==> taken.contains(#[trigger] numbered(base, m))
}

/// The plain names in a row: all nouns with the first adjective, then all with
/// the next.
pub open spec fn plain_at(k: int) -> Seq<char> {
    plain(k / NOUNS@.len() as int, k % NOUNS@.len() as int)
}

/// How many plain names there are.
pub const PLAIN_NAMES: usize = 576;

/// Some plain name is free.
pub open spec fn has_free_plain(taken: Set<Seq<char>>) -> bool {
    exists|x: Seq<char>| #[trigger] is_plain_name(x) && !taken.contains(x)
}

/// The first plain name that is free.
pub open spec fn is_first_plain(taken: Set<Seq<char>>, name: Seq<char>) -> bool {
    exists|k: int|
        {
            &&& 0 <= k < PLAIN_NAMES
            &&& name == #[trigger] plain_at(k)
            &&& !taken.contains(name)
            &&& forall|j: int| 0 <= j < k ==> taken.contains(#[trigger] plain_at(j))
        }
}

/// The name that the draws give: the first of the tries that is free, or else
/// the first plain name that is free. Once there is none, the last draw with
/// the first number that makes it free, from 2 on.
pub open spec fn is_named(taken: Set<Seq<char>>, draws: Seq<Seq<char>>, name: Seq<char>) -> bool {
    if exists|i: int| 0 <= i < TRIES && !taken.contains(#[trigger] draws[i]) {
        exists|i: int|
            0 <= i < TRIES && name == #[trigger] draws[i] && !taken.contains(name) && forall|j: int|
                0 <= j < i ==> taken.contains(#[trigger] draws[j])
    } else if has_free_plain(taken) {
        is_first_plain(taken, name)
    } else {
        exists|n: nat|
            #[trigger] is_first_free(taken, draws[TRIES as int], n, 2) && name == numbered(
                draws[TRIES as int],
                n,
            )
    }
}

/// Every plain name stands in the row, and nothing else.
proof fn the_row_holds_plain_names()
    ensures
        forall|k: int| 0 <= k < PLAIN_NAMES ==> is_plain_name(#[trigger] plain_at(k)),
        forall|x: Seq<char>| #[trigger]
            is_plain_name(x) ==> exists|k: int| 0 <= k < PLAIN_NAMES && x == #[trigger] plain_at(k),
{
    assert forall|k: int| 0 <= k < PLAIN_NAMES implies is_plain_name(#[trigger] plain_at(k)) by {
        assert(0 <= k / 24 < 24 && 0 <= k % 24 < 24);
        assert(plain_at(k) == plain(k / 24, k % 24));
    }
    assert forall|x: Seq<char>| #[trigger] is_plain_name(x) implies exists|k: int|
        0 <= k < PLAIN_NAMES && x == #[trigger] plain_at(k) by {
        let (a, n) = choose|a: int, n: int|
            0 <= a < ADJECTIVES@.len() && 0 <= n < NOUNS@.len() && x == #[trigger] plain(a, n);
        let k = a * 24 + n;
        assert(k / 24 == a && k % 24 == n);
        assert(plain_at(k) == plain(a, n));
    }
}

proof fn numbered_is_injective(base: Seq<char>, a: nat, b: nat)
    requires
        numbered(base, a) == numbered(base, b),
    ensures
        a == b,
{
    let start = (base + " "@).len() as int;
    assert(numbered(base, a).skip(start) =~= decimal(a));
    assert(numbered(base, b).skip(start) =~= decimal(b));
    decimal_is_injective(a, b);
}

/// There are at least as many names in use as numbered ones among them.
proof fn numbered_names_fit(taken: Set<Seq<char>>, base: Seq<char>, n: nat)
    requires
        taken.finite(),
        n >= 2,
        forall|m: nat| 2 <= m < n ==> taken.contains(#[trigger] numbered(base, m)),
    ensures
        n - 2 <= taken.len(),
    decreases n,
{
    if n > 2 {
        let name = numbered(base, (n - 1) as nat);
        let rest = taken.remove(name);
        assert forall|m: nat| 2 <= m < n - 1 implies rest.contains(#[trigger] numbered(base, m)) by {
            if numbered(base, m) == name {
                numbered_is_injective(base, m, (n - 1) as nat);
            }
        }
        numbered_names_fit(rest, base, (n - 1) as nat);
    }
}

/// While a plain name is free, nobody gets a number.
pub proof fn names_are_plain_while_they_last(
    taken: Set<Seq<char>>,
    draws: Seq<Seq<char>>,
    name: Seq<char>,
)
    requires
        are_draws(draws),
        is_named(taken, draws, name),
        has_free_plain(taken),
    ensures
        is_plain_name(name),
        !taken.contains(name),
{
    the_row_holds_plain_names();
}

fn two_words(a: &str, n: &str) -> (r: String)
    ensures
        r@ == a@ + " "@ + n@,
{
    let mut name = a.to_owned();
    name.append(" ");
    name.append(n);
    name
}

/// The first plain name that is free.
fn first_plain(taken: &Taken) -> (r: Option<String>)
    ensures
        match r {
            Some(name) => has_free_plain(taken@) && is_first_plain(taken@, name@),
            None => !has_free_plain(taken@),
        },
{
    proof {
        the_row_holds_plain_names();
    }
    let mut k: usize = 0;
    while k < PLAIN_NAMES
        invariant
            k <= PLAIN_NAMES,
            forall|j: int| 0 <= j < PLAIN_NAMES ==> is_plain_name(#[trigger] plain_at(j)),
            forall|j: int| 0 <= j < k ==> taken@.contains(#[trigger] plain_at(j)),
        decreases PLAIN_NAMES - k,
    {
        let name = two_words(ADJECTIVES[k / 24], NOUNS[k % 24]);
        assert(name@ == plain_at(k as int));
        if !taken.contains(name.as_str()) {
            return Some(name);
        }
        k += 1;
    }
    None
}

/// The name that the draws give.
pub fn name_from(taken: &Taken, draws: &Vec<String>) -> (r: String)
    requires
        draws@.len() == TRIES + 1,
        taken@.finite(),
        taken@.len() < 0x7fff_ffff,
    ensures
        is_named(taken@, draws@.map_values(|s: String| s@), r@),
        !taken@.contains(r@),
{
    proof {
        the_row_holds_plain_names();
    }
    let ghost drawn = draws@.map_values(|s: String| s@);
    let mut i: usize = 0;
    while i < TRIES
        invariant
            i <= TRIES,
            draws@.len() == TRIES + 1,
            drawn == draws@.map_values(|s: String| s@),
            forall|j: int| 0 <= j < i ==> taken@.contains(#[trigger] drawn[j]),
        decreases TRIES - i,
    {
        if !taken.contains(draws[i].as_str()) {
            assert(!taken@.contains(drawn[i as int]));
            return draws[i].clone();
        }
        i += 1;
    }
    if let Some(name) = first_plain(taken) {
        return name;
    }
    let ghost base = drawn[TRIES as int];
    let mut n: u64 = 2;
    loop
        invariant
            draws@.len() == TRIES + 1,
            drawn == draws@.map_values(|s: String| s@),
            base == drawn[TRIES as int],
            taken@.finite(),
            taken@.len() < 0x7fff_ffff,
            !has_free_plain(taken@),
            2 <= n,
            n - 2 <= taken@.len(),
            forall|j: int| 0 <= j < TRIES ==> taken@.contains(#[trigger] drawn[j]),
            forall|m: nat| 2 <= m < n ==> taken@.contains(#[trigger] numbered(base, m)),
        decreases taken@.len() + 2 - n,
    {
        let mut name = draws[TRIES].clone();
        name.append(" ");
        push_decimal(&mut name, n);
        if !taken.contains(name.as_str()) {
            assert(is_first_free(taken@, base, n as nat, 2));
            return name;
        }
        n += 1;
        proof {
            numbered_names_fit(taken@, base, n as nat);
        }
    }
}

fn draw() -> (r: String)
    ensures
        is_plain_name(r@),
{
    let adjectives: &[&'static str] = &ADJECTIVES;
    let nouns: &[&'static str] = &NOUNS;
    let a = choose_word(adjectives);
    let n = choose_word(nouns);
    proof {
        let i = choose|i: int| 0 <= i < ADJECTIVES@.len() && ADJECTIVES@[i] == a;
        let j = choose|j: int| 0 <= j < NOUNS@.len() && NOUNS@[j] == n;
        assert(a@ + " "@ + n@ == plain(i, j));
    }
    two_words(a, n)
}

/// A random name not in `taken`. Once the plain combinations run out a
/// number is appended.
pub fn generate(taken: &Taken) -> (r: String)
    requires
        taken@.finite(),
        taken@.len() < 0x7fff_ffff,
    ensures
        !taken@.contains(r@),
        has_free_plain(taken@) ==> is_plain_name(r@),
        exists|draws: Seq<Seq<char>>| are_draws(draws) && #[trigger] is_named(taken@, draws, r@),
{
    let mut draws: Vec<String> = Vec::new();
    while draws.len() < TRIES + 1
        invariant
            draws@.len() <= TRIES + 1,
            forall|i: int| 0 <= i < draws@.len() ==> is_plain_name((#[trigger] draws@[i])@),
        decreases TRIES + 1 - draws@.len(),
    {
        draws.push(draw());
    }
    let r = name_from(taken, &draws);
    proof {
        let drawn = draws@.map_values(|s: String| s@);
        assert(are_draws(drawn));
        if has_free_plain(taken@) {
            names_are_plain_while_they_last(taken@, drawn, r@);
        }
    }
    r
}

/// The first of the names drawn that is free is the player's name.
pub proof fn a_free_draw_is_the_name(
    taken: Set<Seq<char>>,
    draws: Seq<Seq<char>>,
    name: Seq<char>,
    i: int,
)
    requires
        is_named(taken, draws, name),
        0 <= i < 32,
        !taken.contains(draws[i]),
        forall|j: int| 0 <= j < i ==> taken.contains(#[trigger] draws[j]),
    ensures
        name == draws[i],
{
    let k = choose|k: int|
        0 <= k < TRIES && name == #[trigger] draws[k] && !taken.contains(name) && forall|j: int|
            0 <= j < k ==> taken.contains(#[trigger] draws[j]);
    assert(!taken.contains(draws[k]));
}

/// Once no name of two words is free, a number is appended to one: the lowest
/// from 2 on that makes a name nobody has.
pub proof fn numbers_are_appended_at_last(
    taken: Set<Seq<char>>,
    draws: Seq<Seq<char>>,
    name: Seq<char>,
)
    requires
        are_draws(draws),
        is_named(taken, draws, name),
        forall|a: int, n: int|
            0 <= a < 24 && 0 <= n < 24 ==> taken.contains(
                #[trigger] (ADJECTIVES@[a]@ + " "@ + NOUNS@[n]@),
            ),
    ensures
        !taken.contains(name),
        exists|base: Seq<char>, n: nat|
            {
                &&& draws.contains(base)
                &&& n >= 2
                &&& name == #[trigger] (base + " "@ + decimal(n))
                &&& forall|k: nat|
                    2 <= k < n ==> taken.contains(#[trigger] (base + " "@ + decimal(k)))
            },
{
    assert forall|x: Seq<char>| #[trigger] is_plain_name(x) implies taken.contains(x) by {
        let (a, n) = choose|a: int, n: int|
            0 <= a < ADJECTIVES@.len() && 0 <= n < NOUNS@.len() && x == #[trigger] plain(a, n);
        assert(taken.contains(ADJECTIVES@[a]@ + " "@ + NOUNS@[n]@));
    }
    assert forall|i: int| 0 <= i < TRIES implies taken.contains(#[trigger] draws[i]) by {
        assert(is_plain_name(draws[i]));
    }
    let base = draws[TRIES as int];
    let n = choose|n: nat| #[trigger] is_first_free(taken, base, n, 2) && name == numbered(base, n);
    assert(name == base + " "@ + decimal(n));
    assert forall|k: nat| 2 <= k < n implies taken.contains(
        #[trigger] (base + " "@ + decimal(k)),
    ) by {
        assert(taken.contains(numbered(base, k)));
    }
}

/// Every name drawn is an adjective and a noun, with a space between.
pub proof fn names_are_two_words(name: Seq<char>)
    requires
        is_plain_name(name),
    ensures
        exists|a: int, n: int|
            0 <= a < ADJECTIVES@.len() && 0 <= n < NOUNS@.len() && name == #[trigger] (
            ADJECTIVES@[a]@ + " "@ + NOUNS@[n]@),
{
    let (a, n) = choose|a: int, n: int|
        0 <= a < ADJECTIVES@.len() && 0 <= n < NOUNS@.len() && name == #[trigger] plain(a, n);
    assert(name == ADJECTIVES@[a]@ + " "@ + NOUNS@[n]@);
}

/// As long as some adjective and noun together are not in use, the name is an
/// adjective and a noun.
pub proof fn two_words_are_enough_while_they_last(
    taken: Set<Seq<char>>,
    draws: Seq<Seq<char>>,
    name: Seq<char>,
    a: int,
    n: int,
)
    requires
        are_draws(draws),
        is_named(taken, draws, name),
        0 <= a < 24,
        0 <= n < 24,
        !taken.contains(ADJECTIVES@[a]@ + " "@ + NOUNS@[n]@),
    ensures
        !taken.contains(name),
        exists|b: int, k: int|
            0 <= b < 24 && 0 <= k < 24 && name == #[trigger] (ADJECTIVES@[b]@ + " "@ + NOUNS@[k]@),
{
    assert(plain(a, n) == ADJECTIVES@[a]@ + " "@ + NOUNS@[n]@);
    assert(is_plain_name(plain(a, n)));
    names_are_plain_while_they_last(taken, draws, name);
    names_are_two_words(name);
}

} // verus!
