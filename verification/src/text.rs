//! Text: numbers written out and read back, white space, and comparison.
//!
//! Contracts speak of a string as the sequence of its characters.

use vstd::prelude::*;

verus! {

/// `String::push` appends one character to the string.
pub assume_specification[ String::push ](s: &mut String, c: char)
    ensures
        final(s)@ == old(s)@.push(c),
;

/// What `format!("{text:?}")` makes of a string with these characters.
pub uninterp spec fn debug_text(text: Seq<char>) -> Seq<char>;

/// `format!` with `{:?}`: the string in double quotes, with the characters
/// escaped that the standard library escapes. Which those are is left to
/// `debug_text`; the result depends on the text alone.
#[verifier::external_body]
pub(crate) fn debug(text: &str) -> (r: String)
    ensures
        r@ == debug_text(text@),
{
    format!("{text:?}")
}

/// The decimal digit for a number below ten.
pub open spec fn digit(d: nat) -> char {
    (48 + d) as char
}

/// A number in decimal, without leading zeros.
pub open spec fn decimal(n: nat) -> Seq<char>
    decreases n,
{
    if n < 10 {
        seq![digit(n)]
    } else {
        decimal(n / 10).push(digit(n % 10))
    }
}

/// Appends `n` in decimal.
pub fn push_decimal(out: &mut String, n: u64)
    ensures
        final(out)@ == old(out)@ + decimal(n as nat),
    decreases n,
{
    if n >= 10 {
        push_decimal(out, n / 10);
    }
    let d: u8 = (n % 10) as u8;
    out.push((48u8 + d) as char);
}

/// `n` in decimal.
pub fn decimal_string(n: u64) -> (r: String)
    ensures
        r@ == decimal(n as nat),
{
    let mut out = String::new();
    push_decimal(&mut out, n);
    out
}

/// The hexadecimal digit for a number below sixteen.
pub open spec fn hex_digit(d: nat) -> char {
    if d < 10 {
        (48 + d) as char
    } else {
        (87 + d) as char
    }
}

/// The last `width` hexadecimal digits of a number.
pub open spec fn hex_padded(n: nat, width: nat) -> Seq<char>
    decreases width,
{
    if width == 0 {
        Seq::empty()
    } else {
        hex_padded(n / 16, (width - 1) as nat).push(hex_digit(n % 16))
    }
}

/// A number in hexadecimal, without leading zeros.
pub open spec fn hex(n: nat) -> Seq<char>
    decreases n,
{
    if n < 16 {
        seq![hex_digit(n)]
    } else {
        hex(n / 16).push(hex_digit(n % 16))
    }
}

fn hex_char(d: u8) -> (c: char)
    requires
        d < 16,
    ensures
        c == hex_digit(d as nat),
{
    if d < 10 {
        (48u8 + d) as char
    } else {
        (87u8 + d) as char
    }
}

/// Appends the last `width` hexadecimal digits of `n`.
pub fn push_hex_padded(out: &mut String, n: u128, width: usize)
    ensures
        final(out)@ == old(out)@ + hex_padded(n as nat, width as nat),
    decreases width,
{
    if width > 0 {
        push_hex_padded(out, n / 16, width - 1);
        let d: u8 = (n % 16) as u8;
        out.push(hex_char(d));
    }
}

/// Appends `n` in hexadecimal.
pub fn push_hex(out: &mut String, n: u64)
    ensures
        final(out)@ == old(out)@ + hex(n as nat),
    decreases n,
{
    if n >= 16 {
        push_hex(out, n / 16);
    }
    let d: u8 = (n % 16) as u8;
    out.push(hex_char(d));
}

/// Different numbers are written differently.
pub proof fn decimal_is_injective(a: nat, b: nat)
    requires
        decimal(a) == decimal(b),
    ensures
        a == b,
{
    number_reads_decimal(a);
    number_reads_decimal(b);
}

/// A number has at least one digit, and nothing but digits.
pub proof fn decimal_len(n: nat)
    ensures
        decimal(n).len() >= 1,
        forall|i: int| 0 <= i < decimal(n).len() ==> '0' <= #[trigger] decimal(n)[i] <= '9',
    decreases n,
{
    if n >= 10 {
        decimal_len(n / 10);
    }
}

/// A hexadecimal digit is a digit or one of the letters from a to f, and says
/// which number it stands for.
pub proof fn hex_digit_is_injective(a: nat, b: nat)
    requires
        a < 16,
        b < 16,
    ensures
        '0' <= hex_digit(a) <= '9' || 'a' <= hex_digit(a) <= 'f',
        hex_digit(a) == hex_digit(b) ==> a == b,
{
}

/// Different numbers are written differently in hexadecimal, with nothing but
/// digits.
pub proof fn hex_is_injective(a: nat, b: nat)
    ensures
        hex(a).len() >= 1,
        forall|i: int|
            0 <= i < hex(a).len() ==> '0' <= #[trigger] hex(a)[i] <= '9' || 'a' <= hex(a)[i]
                <= 'f',
        hex(a) == hex(b) ==> a == b,
    decreases a,
{
    hex_digit_is_injective(a % 16, b % 16);
    if a >= 16 {
        hex_is_injective(a / 16, b / 16);
    }
    if hex(a) == hex(b) {
        assert(hex(a).last() == hex_digit(a % 16));
        assert(hex(b).last() == hex_digit(b % 16));
        if a >= 16 && b >= 16 {
            assert(hex(a).drop_last() =~= hex(a / 16));
            assert(hex(b).drop_last() =~= hex(b / 16));
        } else if a >= 16 {
            assert(hex(a / 16).len() >= 1);
        } else if b >= 16 {
            hex_has_digits(b / 16);
        }
    }
}

proof fn hex_has_digits(n: nat)
    ensures
        hex(n).len() >= 1,
    decreases n,
{
    if n >= 16 {
        hex_has_digits(n / 16);
    }
}

/// How many numbers can be written with this many hexadecimal digits.
pub open spec fn sixteens(width: nat) -> nat
    decreases width,
{
    if width == 0 {
        1
    } else {
        16 * sixteens((width - 1) as nat)
    }
}

/// Numbers that fit are written differently if they are different, with
/// nothing but digits.
pub proof fn hex_padded_is_injective(a: nat, b: nat, width: nat)
    requires
        a < sixteens(width),
        b < sixteens(width),
    ensures
        hex_padded(a, width).len() == width,
        forall|i: int|
            0 <= i < width ==> '0' <= #[trigger] hex_padded(a, width)[i] <= '9' || 'a'
                <= hex_padded(a, width)[i] <= 'f',
        hex_padded(a, width) == hex_padded(b, width) ==> a == b,
    decreases width,
{
    if width > 0 {
        let w = (width - 1) as nat;
        hex_digit_is_injective(a % 16, b % 16);
        hex_padded_is_injective(a / 16, b / 16, w);
        hex_padded_is_injective(b / 16, a / 16, w);
        if hex_padded(a, width) == hex_padded(b, width) {
            assert(hex_padded(a, width).drop_last() =~= hex_padded(a / 16, w));
            assert(hex_padded(b, width).drop_last() =~= hex_padded(b / 16, w));
            assert(hex_padded(a, width).last() == hex_digit(a % 16));
            assert(hex_padded(b, width).last() == hex_digit(b % 16));
        }
    }
}

/// The characters that Unicode counts as white space.
pub open spec fn is_space(c: char) -> bool {
    ||| '\u{9}' <= c <= '\u{d}'
    ||| c == ' '
    ||| c == '\u{85}'
    ||| c == '\u{a0}'
    ||| c == '\u{1680}'
    ||| '\u{2000}' <= c <= '\u{200a}'
    ||| c == '\u{2028}'
    ||| c == '\u{2029}'
    ||| c == '\u{202f}'
    ||| c == '\u{205f}'
    ||| c == '\u{3000}'
}

/// Whether `c` is white space.
pub fn space(c: char) -> (r: bool)
    ensures
        r == is_space(c),
{
    ('\u{9}' <= c && c <= '\u{d}') || c == ' ' || c == '\u{85}' || c == '\u{a0}' || c == '\u{1680}'
        || ('\u{2000}' <= c && c <= '\u{200a}') || c == '\u{2028}' || c == '\u{2029}' || c
        == '\u{202f}' || c == '\u{205f}' || c == '\u{3000}'
}

/// Without white space at the start.
pub open spec fn trim_start(s: Seq<char>) -> Seq<char>
    decreases s.len(),
{
    if s.len() > 0 && is_space(s[0]) {
        trim_start(s.drop_first())
    } else {
        s
    }
}

/// Without white space at the end.
pub open spec fn trim_end(s: Seq<char>) -> Seq<char>
    decreases s.len(),
{
    if s.len() > 0 && is_space(s.last()) {
        trim_end(s.drop_last())
    } else {
        s
    }
}

/// Without white space at either end.
pub open spec fn trim(s: Seq<char>) -> Seq<char> {
    trim_end(trim_start(s))
}

/// A text without white space at its ends stays as it is.
pub proof fn trim_keeps(s: Seq<char>)
    requires
        s.len() > 0 ==> !is_space(s[0]) && !is_space(s.last()),
    ensures
        trim(s) == s,
{
}

/// White space before a text makes no difference.
pub proof fn trim_skips(c: char, s: Seq<char>)
    requires
        is_space(c),
    ensures
        trim(seq![c] + s) == trim(s),
{
    assert((seq![c] + s).drop_first() =~= s);
}

/// Nothing but white space.
pub open spec fn is_blank(s: Seq<char>) -> bool {
    forall|i: int| 0 <= i < s.len() ==> is_space(#[trigger] s[i])
}

/// The characters of `s`.
pub fn chars_of(s: &str) -> (r: Vec<char>)
    ensures
        r@ == s@,
{
    let mut r: Vec<char> = Vec::new();
    for c in it: s.chars()
        invariant
            r@ == it.seq().take(it.index()),
            it.seq() == s@,
    {
        r.push(c);
    }
    r
}

/// The string of the characters from `from` up to `to`.
pub fn string_of(chars: &Vec<char>, from: usize, to: usize) -> (r: String)
    requires
        from <= to <= chars@.len(),
    ensures
        r@ == chars@.subrange(from as int, to as int),
{
    let mut r = String::new();
    let mut i: usize = from;
    while i < to
        invariant
            from <= i <= to <= chars@.len(),
            r@ == chars@.subrange(from as int, i as int),
        decreases to - i,
    {
        r.push(chars[i]);
        i += 1;
        assert(r@ =~= chars@.subrange(from as int, i as int));
    }
    r
}

/// Whether `s` is nothing but white space.
pub fn blank(s: &str) -> (r: bool)
    ensures
        r == is_blank(s@),
{
    let chars = chars_of(s);
    let mut i: usize = 0;
    while i < chars.len()
        invariant
            i <= chars@.len(),
            chars@ == s@,
            forall|j: int| 0 <= j < i ==> is_space(#[trigger] chars@[j]),
        decreases chars@.len() - i,
    {
        if !space(chars[i]) {
            return false;
        }
        i += 1;
    }
    true
}

/// What is left of `chars[from..to]` without white space at either end: where
/// it starts and where it ends.
pub fn trim_range(chars: &Vec<char>, from: usize, to: usize) -> (r: (usize, usize))
    requires
        from <= to <= chars@.len(),
    ensures
        from <= r.0 <= r.1 <= to,
        chars@.subrange(r.0 as int, r.1 as int) == trim(chars@.subrange(from as int, to as int)),
{
    let mut a: usize = from;
    while a < to && space(chars[a])
        invariant
            from <= a <= to <= chars@.len(),
            trim_start(chars@.subrange(from as int, to as int)) == trim_start(
                chars@.subrange(a as int, to as int),
            ),
        decreases to - a,
    {
        assert(chars@.subrange(a as int, to as int).drop_first() =~= chars@.subrange(
            a + 1,
            to as int,
        ));
        a += 1;
    }
    let ghost started = chars@.subrange(a as int, to as int);
    assert(trim_start(started) == started);
    let mut b: usize = to;
    while a < b && space(chars[b - 1])
        invariant
            a <= b <= to <= chars@.len(),
            trim_end(started) == trim_end(chars@.subrange(a as int, b as int)),
        decreases b,
    {
        assert(chars@.subrange(a as int, b as int).drop_last() =~= chars@.subrange(
            a as int,
            b - 1,
        ));
        b -= 1;
    }
    (a, b)
}

/// Whether the strings hold the same characters.
pub fn same(a: &str, b: &str) -> (r: bool)
    ensures
        r == (a@ == b@),
{
    let a = chars_of(a);
    let b = chars_of(b);
    assert(a@.subrange(0, a@.len() as int) =~= a@);
    same_chars(&a, 0, a.len(), &b)
}

/// Whether `a[from..to]` holds the characters of `b`.
pub fn same_chars(a: &Vec<char>, from: usize, to: usize, b: &Vec<char>) -> (r: bool)
    requires
        from <= to <= a@.len(),
    ensures
        r == (a@.subrange(from as int, to as int) == b@),
{
    if to - from != b.len() {
        return false;
    }
    let mut i: usize = 0;
    while i < b.len()
        invariant
            from <= to <= a@.len(),
            to - from == b@.len(),
            i <= b@.len(),
            forall|j: int| 0 <= j < i ==> a@[from + j] == #[trigger] b@[j],
        decreases b@.len() - i,
    {
        if a[from + i] != b[i] {
            assert(a@.subrange(from as int, to as int)[i as int] != b@[i as int]);
            return false;
        }
        i += 1;
    }
    assert(a@.subrange(from as int, to as int) =~= b@);
    true
}

/// Dictionary order by code point. For valid text this is also the order of
/// the encoded bytes.
pub open spec fn lex_le(a: Seq<char>, b: Seq<char>) -> bool
    decreases a.len(),
{
    if a.len() == 0 {
        true
    } else if b.len() == 0 {
        false
    } else if a[0] == b[0] {
        lex_le(a.drop_first(), b.drop_first())
    } else {
        a[0] < b[0]
    }
}

/// `lex_le` is total: of two texts one comes first.
pub proof fn lex_total(a: Seq<char>, b: Seq<char>)
    ensures
        lex_le(a, b) || lex_le(b, a),
    decreases a.len(),
{
    if a.len() > 0 && b.len() > 0 && a[0] == b[0] {
        lex_total(a.drop_first(), b.drop_first());
    }
}

/// `lex_le` is antisymmetric: only equal texts come before each other.
pub proof fn lex_antisymmetric(a: Seq<char>, b: Seq<char>)
    requires
        lex_le(a, b),
        lex_le(b, a),
    ensures
        a == b,
    decreases a.len(),
{
    if a.len() > 0 && b.len() > 0 {
        let x = a.drop_first();
        let y = b.drop_first();
        lex_antisymmetric(x, y);
        assert(a.len() == x.len() + 1 && b.len() == y.len() + 1);
        assert(a[0] == b[0]);
        assert forall|i: int| 0 <= i < a.len() implies a[i] == b[i] by {
            if i > 0 {
                assert(a[i] == x[i - 1]);
                assert(b[i] == y[i - 1]);
            }
        }
    }
    assert(a =~= b);
}

/// `lex_le` is transitive.
pub proof fn lex_transitive(a: Seq<char>, b: Seq<char>, c: Seq<char>)
    requires
        lex_le(a, b),
        lex_le(b, c),
    ensures
        lex_le(a, c),
    decreases a.len(),
{
    if a.len() > 0 && b.len() > 0 && c.len() > 0 && a[0] == b[0] && b[0] == c[0] {
        lex_transitive(a.drop_first(), b.drop_first(), c.drop_first());
    }
}

/// Where two texts first differ, or the shorter one ends.
pub proof fn first_difference<A>(a: Seq<A>, b: Seq<A>) -> (k: int)
    ensures
        0 <= k <= a.len(),
        k <= b.len(),
        forall|j: int| 0 <= j < k ==> a[j] == b[j],
        k == a.len() || k == b.len() || a[k] != b[k],
    decreases a.len(),
{
    if a.len() == 0 || b.len() == 0 || a[0] != b[0] {
        0
    } else {
        let k = first_difference(a.drop_first(), b.drop_first()) + 1;
        assert forall|j: int| 0 <= j < k implies a[j] == b[j] by {
            if j > 0 {
                assert(a.drop_first()[j - 1] == b.drop_first()[j - 1]);
            }
        }
        k
    }
}

/// As in a dictionary: the first character in which two texts differ decides,
/// and where there is none the shorter text comes first.
pub proof fn the_first_difference_decides(a: Seq<char>, b: Seq<char>, k: int)
    requires
        0 <= k <= a.len(),
        k <= b.len(),
        forall|j: int| 0 <= j < k ==> a[j] == b[j],
        k == a.len() || k == b.len() || a[k] != b[k],
    ensures
        lex_le(a, b) <==> k == a.len() || (k < b.len() && a[k] < b[k]),
    decreases k,
{
    if k > 0 {
        let x = a.drop_first();
        let y = b.drop_first();
        assert forall|j: int| 0 <= j < k - 1 implies x[j] == y[j] by {
            assert(a[j + 1] == b[j + 1]);
        }
        the_first_difference_decides(x, y, k - 1);
    }
}

/// Whether `a` comes before `b` in dictionary order, or is the same.
pub fn lex_before(a: &Vec<char>, b: &Vec<char>) -> (r: bool)
    ensures
        r == lex_le(a@, b@),
{
    let mut i: usize = 0;
    assert(a@.skip(0) =~= a@);
    assert(b@.skip(0) =~= b@);
    while i < a.len() && i < b.len() && a[i] == b[i]
        invariant
            i <= a@.len(),
            i <= b@.len(),
            lex_le(a@, b@) == lex_le(a@.skip(i as int), b@.skip(i as int)),
        decreases a@.len() - i,
    {
        assert(a@.skip(i as int).drop_first() =~= a@.skip(i + 1));
        assert(b@.skip(i as int).drop_first() =~= b@.skip(i + 1));
        i += 1;
    }
    if i >= a.len() {
        true
    } else if i >= b.len() {
        false
    } else {
        a[i] < b[i]
    }
}

/// Reading a number back: the value of a row of decimal digits, if that is
/// what it is.
pub open spec fn number(s: Seq<char>) -> Option<nat>
    decreases s.len(),
{
    if s.len() == 0 {
        None
    } else if !('0' <= s.last() <= '9') {
        None
    } else if s.len() == 1 {
        Some((s.last() as int - 48) as nat)
    } else {
        match number(s.drop_last()) {
            Some(n) => Some((10 * n + (s.last() as int - 48)) as nat),
            None => None,
        }
    }
}

/// An unsigned number as the standard library reads it: decimal digits, with
/// or without a plus sign before them, no larger than `limit`.
pub open spec fn unsigned(s: Seq<char>, limit: nat) -> Option<nat> {
    let digits = if s.len() > 0 && s[0] == '+' {
        s.drop_first()
    } else {
        s
    };
    match number(digits) {
        Some(n) => if n <= limit {
            Some(n)
        } else {
            None
        },
        None => None,
    }
}

proof fn number_of_prefix(s: Seq<char>, k: int)
    requires
        1 <= k <= s.len(),
        number(s) is Some,
    ensures
        number(s.take(k)) is Some,
        number(s.take(k))->0 <= number(s)->0,
    decreases s.len(),
{
    if k < s.len() {
        assert(s.take(k) =~= s.drop_last().take(k));
        number_of_prefix(s.drop_last(), k);
    } else {
        assert(s.take(k) =~= s);
    }
}

/// Reads `chars[from..to]` as an unsigned number no larger than `limit`.
pub fn read_unsigned(chars: &Vec<char>, from: usize, to: usize, limit: u64) -> (r: Option<u64>)
    requires
        from <= to <= chars@.len(),
    ensures
        match r {
            Some(n) => unsigned(chars@.subrange(from as int, to as int), limit as nat) == Some(
                n as nat,
            ),
            None => unsigned(chars@.subrange(from as int, to as int), limit as nat) is None,
        },
{
    let ghost whole = chars@.subrange(from as int, to as int);
    let start: usize = if from < to && chars[from] == '+' {
        from + 1
    } else {
        from
    };
    let ghost digits = chars@.subrange(start as int, to as int);
    proof {
        if from < to && chars@[from as int] == '+' {
            assert(whole.drop_first() =~= digits);
        }
    }
    if start == to {
        return None;
    }
    let mut n: u64 = 0;
    let mut i: usize = start;
    while i < to
        invariant
            start <= i <= to <= chars@.len(),
            start < to,
            digits == chars@.subrange(start as int, to as int),
            n <= limit,
            i == start ==> n == 0,
            i > start ==> number(digits.take(i - start)) == Some(n as nat),
            unsigned(whole, limit as nat) == match number(digits) {
                Some(n) => if n <= limit {
                    Some(n)
                } else {
                    None
                },
                None => None,
            },
            whole == chars@.subrange(from as int, to as int),
        decreases to - i,
    {
        let c = chars[i];
        let ghost now = digits.take(i + 1 - start);
        proof {
            assert(now.drop_last() =~= digits.take(i - start));
            assert(now.last() == c);
            if number(digits) is Some {
                number_of_prefix(digits, i + 1 - start);
            }
        }
        if !('0' <= c && c <= '9') {
            return None;
        }
        let d: u64 = (c as u32 - 48) as u64;
        let next: u128 = 10 * n as u128 + d as u128;
        assert(number(now) == Some(next as nat));
        if next > limit as u128 {
            return None;
        }
        n = next as u64;
        i += 1;
    }
    assert(digits.take(to - start) =~= digits);
    Some(n)
}

/// Reading back what was written: a number written in decimal is read as
/// itself.
pub proof fn number_reads_decimal(n: nat)
    ensures
        number(decimal(n)) == Some(n),
    decreases n,
{
    if n >= 10 {
        number_reads_decimal(n / 10);
        decimal_len(n / 10);
        assert(decimal(n).drop_last() =~= decimal(n / 10));
    }
}

/// Where a character first occurs in a text, or the length of the text.
pub open spec fn until(s: Seq<char>, c: char) -> nat
    decreases s.len(),
{
    if s.len() == 0 || s[0] == c {
        0
    } else {
        1 + until(s.skip(1), c)
    }
}

/// The text before that place lacks the character, which follows.
pub proof fn until_is_first(s: Seq<char>, c: char)
    ensures
        until(s, c) <= s.len(),
        forall|i: int| 0 <= i < until(s, c) ==> (#[trigger] s[i]) != c,
        until(s, c) < s.len() ==> s[until(s, c) as int] == c,
    decreases s.len(),
{
    if s.len() > 0 && s[0] != c {
        until_is_first(s.skip(1), c);
        assert forall|i: int| 0 <= i < until(s, c) implies (#[trigger] s[i]) != c by {
            if i > 0 {
                assert(s[i] == s.skip(1)[i - 1]);
            }
        }
    }
}

/// Where the character follows a text that lacks it, that is where it first
/// occurs.
pub proof fn until_after(s: Seq<char>, tail: Seq<char>, c: char)
    requires
        forall|i: int| 0 <= i < s.len() ==> (#[trigger] s[i]) != c,
        tail.len() == 0 || tail[0] == c,
    ensures
        until(s + tail, c) == s.len(),
    decreases s.len(),
{
    let all = s + tail;
    if s.len() > 0 {
        assert(all.skip(1) =~= s.skip(1) + tail);
        until_after(s.skip(1), tail, c);
        assert(all[0] == s[0]);
    } else {
        assert(all =~= tail);
    }
}

/// Where `c` first occurs in `chars[from..to]`, or `to`.
pub fn find_char(chars: &Vec<char>, from: usize, to: usize, c: char) -> (r: usize)
    requires
        from <= to <= chars@.len(),
    ensures
        from <= r <= to,
        r == from + until(chars@.subrange(from as int, to as int), c),
{
    let mut i: usize = from;
    while i < to && chars[i] != c
        invariant
            from <= i <= to <= chars@.len(),
            until(chars@.subrange(from as int, to as int), c) == i - from + until(
                chars@.subrange(i as int, to as int),
                c,
            ),
        ensures
            from <= i <= to,
            i < to ==> chars@[i as int] == c,
        decreases to - i,
    {
        assert(chars@.subrange(i as int, to as int).skip(1) =~= chars@.subrange(
            i + 1,
            to as int,
        ));
        i += 1;
    }
    i
}

// What is written can be read

/// A number is written with its digits from the highest to the lowest: the
/// last one is what is left of the number by ten, the ones before it are those
/// of a tenth of the number. Only zero begins with a zero.
pub proof fn a_number_is_written_in_tens(n: nat)
    ensures
        decimal(n).last() as int == '0' as int + n % 10,
        n < 10 ==> decimal(n).len() == 1,
        n >= 10 ==> decimal(n).drop_last() == decimal(n / 10),
        n > 0 ==> decimal(n)[0] != '0',
    decreases n,
{
    if n >= 10 {
        a_number_is_written_in_tens(n / 10);
        decimal_len(n / 10);
        assert(decimal(n).drop_last() =~= decimal(n / 10));
        assert(decimal(n)[0] == decimal(n / 10)[0]);
    }
}

/// Digits and nothing else are a number, and zeros before them change nothing.
pub proof fn digits_are_numbers(s: Seq<char>)
    ensures
        number(s) is Some <==> s.len() > 0 && forall|i: int|
            0 <= i < s.len() ==> '0' <= #[trigger] s[i] <= '9',
        s.len() > 0 ==> number(seq!['0'] + s) == number(s),
    decreases s.len(),
{
    if s.len() > 0 {
        let rest = s.drop_last();
        digits_are_numbers(rest);
        let longer = seq!['0'] + s;
        assert(longer.drop_last() =~= seq!['0'] + rest);
        assert(longer.last() == s.last());
        if number(s) is Some {
            assert forall|i: int| 0 <= i < s.len() implies '0' <= #[trigger] s[i] <= '9' by {
                if i < rest.len() {
                    assert(rest[i] == s[i]);
                }
            }
        }
        if forall|i: int| 0 <= i < s.len() ==> '0' <= #[trigger] s[i] <= '9' {
            assert(s[s.len() - 1] == s.last());
            assert forall|i: int| 0 <= i < rest.len() implies '0' <= #[trigger] rest[i]
                <= '9' by {
                assert(s[i] == rest[i]);
            }
        }
        if rest.len() == 0 {
            let zero = longer.drop_last();
            assert(zero =~= seq!['0']);
            assert(zero.last() == '0');
            assert(number(zero) == Some(0nat));
        }
    }
}

/// A number that was written is read as itself, also with a plus sign before
/// it, unless it is larger than the limit. Nothing else but digits, with or
/// without a plus sign, is read.
pub proof fn written_numbers_are_read(n: nat, limit: nat, s: Seq<char>)
    ensures
        unsigned(decimal(n), limit) == if n <= limit {
            Some(n)
        } else {
            None
        },
        unsigned(seq!['+'] + decimal(n), limit) == unsigned(decimal(n), limit),
        unsigned(s, limit) is Some ==> s.len() > 0 && forall|i: int|
            0 <= i < s.len() ==> '0' <= #[trigger] s[i] <= '9' || (i == 0 && s[i] == '+'),
        unsigned(s, limit) matches Some(k) ==> k <= limit,
{
    number_reads_decimal(n);
    decimal_len(n);
    let signed = seq!['+'] + decimal(n);
    assert(signed.drop_first() =~= decimal(n));
    let digits = if s.len() > 0 && s[0] == '+' {
        s.drop_first()
    } else {
        s
    };
    digits_are_numbers(digits);
    if unsigned(s, limit) is Some {
        assert forall|i: int| 0 <= i < s.len() implies '0' <= #[trigger] s[i] <= '9' || (i == 0
            && s[i] == '+') by {
            if s[0] == '+' {
                if i > 0 {
                    assert(digits[i - 1] == s[i]);
                }
            } else {
                assert(digits[i] == s[i]);
            }
        }
    }
}

/// What a row of hexadecimal digits stands for.
pub open spec fn hex_number(s: Seq<char>) -> nat
    decreases s.len(),
{
    if s.len() == 0 {
        0
    } else {
        let c = s.last();
        16 * hex_number(s.drop_last()) + (if '0' <= c <= '9' {
            (c as int - '0' as int) as nat
        } else {
            (c as int - 'a' as int + 10) as nat
        })
    }
}

/// A number written in hexadecimal stands for itself, and begins with a zero
/// only if it is one.
pub proof fn hex_stands_for_its_number(n: nat)
    ensures
        hex_number(hex(n)) == n,
        n > 0 ==> hex(n)[0] != '0',
    decreases n,
{
    hex_digit_is_injective(n % 16, n % 16);
    if n >= 16 {
        hex_stands_for_its_number(n / 16);
        hex_has_digits(n / 16);
        assert(hex(n).drop_last() =~= hex(n / 16));
        assert(hex(n)[0] == hex(n / 16)[0]);
    } else {
        assert(hex(n).drop_last() =~= Seq::empty());
        assert(hex_number(Seq::empty()) == 0);
        assert(hex(n).last() == hex_digit(n));
    }
}

/// A number that fits, written with a fixed number of hexadecimal digits,
/// stands for itself.
pub proof fn padded_hex_stands_for_its_number(n: nat, width: nat)
    requires
        n < sixteens(width),
    ensures
        hex_padded(n, width).len() == width,
        hex_number(hex_padded(n, width)) == n,
    decreases width,
{
    if width > 0 {
        let w = (width - 1) as nat;
        hex_digit_is_injective(n % 16, n % 16);
        padded_hex_stands_for_its_number(n / 16, w);
        assert(hex_padded(n, width).drop_last() =~= hex_padded(n / 16, w));
    }
}

/// Trimming takes away white space at the ends, all of it, and nothing else.
pub proof fn trimming_takes_only_white_space(s: Seq<char>)
    ensures
        ({
            let t = trim(s);
            &&& t.len() <= s.len()
            &&& t.len() > 0 ==> !is_space(t[0]) && !is_space(t.last())
            &&& exists|i: int|
                {
                    &&& 0 <= i <= s.len() - t.len()
                    &&& #[trigger] s.subrange(i, i + t.len()) == t
                    &&& forall|k: int|
                        0 <= k < i || i + t.len() <= k < s.len() ==> is_space(#[trigger] s[k])
                }
        }),
{
    let a = start_of(s);
    let rest = trim_start(s);
    let b = end_of(rest);
    let t = trim(s);
    assert(s.subrange(a, a + t.len()) =~= t);
    assert forall|k: int| 0 <= k < a || a + t.len() <= k < s.len() implies is_space(
        #[trigger] s[k],
    ) by {
        if k >= a {
            assert(rest[k - a] == s[k]);
        }
    }
    if t.len() > 0 {
        assert(t[0] == rest[0]);
    }
}

proof fn start_of(s: Seq<char>) -> (a: int)
    ensures
        0 <= a <= s.len(),
        trim_start(s) == s.skip(a),
        forall|k: int| 0 <= k < a ==> is_space(#[trigger] s[k]),
        a < s.len() ==> !is_space(s[a]),
    decreases s.len(),
{
    if s.len() > 0 && is_space(s[0]) {
        let rest = s.drop_first();
        let a = start_of(rest);
        assert(rest.skip(a) =~= s.skip(a + 1));
        assert forall|k: int| 0 <= k < a + 1 implies is_space(#[trigger] s[k]) by {
            if k > 0 {
                assert(rest[k - 1] == s[k]);
            }
        }
        a + 1
    } else {
        assert(s.skip(0) =~= s);
        0
    }
}

proof fn end_of(s: Seq<char>) -> (b: int)
    ensures
        0 <= b <= s.len(),
        trim_end(s) == s.take(b),
        forall|k: int| b <= k < s.len() ==> is_space(#[trigger] s[k]),
        b > 0 ==> !is_space(s[b - 1]),
    decreases s.len(),
{
    if s.len() > 0 && is_space(s.last()) {
        let rest = s.drop_last();
        let b = end_of(rest);
        assert(rest.take(b) =~= s.take(b));
        assert forall|k: int| b <= k < s.len() implies is_space(#[trigger] s[k]) by {
            if k < rest.len() {
                assert(rest[k] == s[k]);
            }
        }
        b
    } else {
        assert(s.take(s.len() as int) =~= s);
        s.len() as int
    }
}

/// White space by code point: tab to carriage return, the space, the next
/// line, and the spaces and separators that Unicode has beyond those.
pub proof fn white_space_by_code_point(c: char)
    ensures
        is_space(c) <==> {
            let n = c as int;
            ||| 9 <= n <= 13
            ||| n == 32 || n == 133 || n == 160 || n == 5760
            ||| 8192 <= n <= 8202
            ||| n == 8232 || n == 8233 || n == 8239 || n == 8287 || n == 12288
        },
{
}

} // verus!
