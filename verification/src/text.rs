//! Numbers as text, for the messages that errors carry.

use vstd::prelude::*;

verus! {

/// The character of one digit, `0`-`9` and then `a`-`z`.
pub open spec fn digit(d: nat) -> char {
    if d < 10 {
        (0x30 + d) as char
    } else {
        (0x61 + d - 10) as char
    }
}

/// `n` written in `base`, without leading zeros.
pub open spec fn digits(n: nat, base: nat) -> Seq<char>
    decreases n,
{
    if base < 2 || n < base {
        seq![digit(n)]
    } else {
        proof {
            vstd::arithmetic::div_mod::lemma_div_decreases(n as int, base as int);
        }
        digits(n / base, base).push(digit(n % base))
    }
}

/// `n` in decimal.
pub open spec fn dec(n: nat) -> Seq<char> {
    digits(n, 10)
}

/// `n` in lower-case hexadecimal.
pub open spec fn hex(n: nat) -> Seq<char> {
    digits(n, 16)
}

/// `n` in decimal.
pub(crate) fn decimal(n: u64) -> (s: String)
    ensures
        s@ == dec(n as nat),
{
    decimal_wide(n as u128)
}

/// `n` in decimal: `u128`'s `Display`, which writes the decimal digits with no
/// leading zeros and no sign.
#[verifier::external_body]
pub(crate) fn decimal_wide(n: u128) -> (s: String)
    ensures
        s@ == dec(n as nat),
{
    format!("{}", n)
}

/// `n` in hexadecimal: `u64`'s `LowerHex`, which writes the hexadecimal digits
/// in lower case with no prefix and no leading zeros.
#[verifier::external_body]
pub(crate) fn hexadecimal(n: u64) -> (s: String)
    ensures
        s@ == hex(n as nat),
{
    format!("{:x}", n)
}

/// `n` in octal.
pub open spec fn oct(n: nat) -> Seq<char> {
    digits(n, 8)
}

/// `n` in octal: `u64`'s `Octal`, which writes the octal digits with no prefix and
/// no leading zeros.
#[verifier::external_body]
pub(crate) fn octal(n: u64) -> (s: String)
    ensures
        s@ == oct(n as nat),
{
    format!("{:o}", n)
}

/// The characters of a string.
pub(crate) fn chars_of(s: &str) -> (v: Vec<char>)
    ensures
        v@ == s@,
{
    let mut v: Vec<char> = Vec::new();
    for c in it: s.chars()
        invariant
            it.seq() == s@,
            v@ == s@.take(it.index() as int),
    {
        v.push(c);
        proof {
            assert(v@ =~= s@.take(it.index() + 1));
        }
    }
    proof {
        assert(s@.take(s@.len() as int) =~= s@);
    }
    v
}

/// `part` stands in `whole` at `at`.
pub open spec fn stands_at(whole: Seq<char>, part: Seq<char>, at: int) -> bool {
    0 <= at && at + part.len() <= whole.len() && whole.subrange(at, at + part.len()) == part
}

/// `part` stands in `whole`.
pub open spec fn contains(whole: Seq<char>, part: Seq<char>) -> bool {
    exists|at: int| stands_at(whole, part, at)
}

pub(crate) fn matches_at(whole: &[char], part: &[char], at: usize) -> (b: bool)
    ensures
        b == stands_at(whole@, part@, at as int),
{
    if at > whole.len() || part.len() > whole.len() - at {
        return false;
    }
    let mut i: usize = 0;
    while i < part.len()
        invariant
            at + part@.len() <= whole@.len(),
            whole@.len() <= usize::MAX,
            i <= part@.len(),
            forall|k: int| 0 <= k < i ==> #[trigger] part@[k] == whole@[at + k],
        decreases part.len() - i,
    {
        if whole[at + i] != part[i] {
            assert(whole@.subrange(at as int, at + part@.len())[i as int] != part@[i as int]);
            return false;
        }
        i = i + 1;
    }
    assert(whole@.subrange(at as int, at + part@.len()) =~= part@);
    true
}

/// Whether `part` stands in `whole`.
pub(crate) fn has_part(whole: &[char], part: &str) -> (b: bool)
    ensures
        b == contains(whole@, part@),
{
    let wanted: Vec<char> = chars_of(part);
    let mut at: usize = 0;
    while at < whole.len()
        invariant
            at <= whole@.len(),
            wanted@ == part@,
            forall|k: int| 0 <= k < at ==> !stands_at(whole@, part@, k),
        decreases whole.len() - at,
    {
        if matches_at(whole, wanted.as_slice(), at) {
            assert(stands_at(whole@, part@, at as int));
            return true;
        }
        at = at + 1;
    }
    let last: bool = matches_at(whole, wanted.as_slice(), at);
    assert(last ==> stands_at(whole@, part@, at as int));
    last
}

/// The strings are the same.
pub(crate) fn same_text(a: &str, b: &str) -> (same: bool)
    ensures
        same == (a@ == b@),
{
    let left: Vec<char> = chars_of(a);
    let right: Vec<char> = chars_of(b);
    if left.len() != right.len() {
        return false;
    }
    let same: bool = matches_at(left.as_slice(), right.as_slice(), 0);
    assert(left@.subrange(0, left@.len() as int) =~= left@);
    same
}

/// What `str`'s `Debug` writes for a string: it in double quotes, with escapes for
/// the characters that do not stand for themselves there.
pub uninterp spec fn debug_text(s: Seq<char>) -> Seq<char>;

/// `format!("{:?}", s)`: the string in double quotes, with escapes. Which
/// characters are escaped, and how, is `str`'s `Debug` to say.
#[verifier::external_body]
pub(crate) fn quoted(s: &str) -> (r: String)
    ensures
        r@ == debug_text(s@),
{
    format!("{:?}", s)
}

/// What the strings of a list hold.
pub open spec fn texts(list: Seq<String>) -> Seq<Seq<char>> {
    list.map_values(|s: String| s@)
}

/// The characters of a string that may not be there.
pub open spec fn text_of(s: Option<String>) -> Option<Seq<char>> {
    match s {
        Some(v) => Some(v@),
        None => None,
    }
}

/// The value of a digit, or -1.
pub open spec fn digit_value(c: char, base: int) -> int {
    let v = if '0' <= c <= '9' {
        c as int - '0' as int
    } else if 'a' <= c <= 'z' {
        c as int - 'a' as int + 10
    } else if 'A' <= c <= 'Z' {
        c as int - 'A' as int + 10
    } else {
        -1
    };
    if v < base {
        v
    } else {
        -1
    }
}

/// The number whose digits the first `n` characters are, where they all are
/// digits.
pub open spec fn number_of(s: Seq<char>, base: int, n: int) -> Option<int>
    decreases n,
{
    if n <= 0 {
        Some(0)
    } else {
        match number_of(s, base, n - 1) {
            Some(v) => if digit_value(s[n - 1], base) < 0 {
                None
            } else {
                Some(v * base + digit_value(s[n - 1], base))
            },
            None => None,
        }
    }
}

/// The number that a string is in the base, where it is one that is not above
/// `max`: digits, one at least, which a plus sign may come before.
pub open spec fn parsed(s: Seq<char>, base: int, max: int) -> Option<int> {
    let digits = if s.len() > 1 && s[0] == '+' {
        s.skip(1)
    } else {
        s
    };
    if digits.len() == 0 {
        None
    } else {
        match number_of(digits, base, digits.len() as int) {
            Some(v) => if v <= max {
                Some(v)
            } else {
                None
            },
            None => None,
        }
    }
}

fn value_of_digit(c: char, base: u64) -> (v: Option<u64>)
    requires
        base <= 36,
    ensures
        match v {
            Some(d) => d == digit_value(c, base as int) && d < base,
            None => digit_value(c, base as int) == -1,
        },
{
    let v: u64 = if '0' <= c && c <= '9' {
        (c as u32 - '0' as u32) as u64
    } else if 'a' <= c && c <= 'z' {
        (c as u32 - 'a' as u32) as u64 + 10
    } else if 'A' <= c && c <= 'Z' {
        (c as u32 - 'A' as u32) as u64 + 10
    } else {
        return None;
    };
    if v < base {
        Some(v)
    } else {
        None
    }
}

proof fn lemma_number_grows(s: Seq<char>, base: int, i: int, n: int)
    requires
        0 <= i <= n,
        base >= 1,
    ensures
        number_of(s, base, n) matches Some(v) ==> (number_of(s, base, i) matches Some(w) && 0 <= w
            <= v),
        number_of(s, base, i) matches Some(w) ==> w >= 0,
    decreases n,
{
    if i < n {
        lemma_number_grows(s, base, i, n - 1);
        lemma_number_grows(s, base, i, i);
        if number_of(s, base, n) is Some {
            let w = number_of(s, base, n - 1)->0;
            lemma_number_grows(s, base, n - 1, n - 1);
            assert(w * base >= w) by (nonlinear_arith)
                requires
                    w >= 0,
                    base >= 1,
            ;
        }
    } else if n > 0 {
        lemma_number_grows(s, base, n - 1, n - 1);
        if number_of(s, base, n) is Some {
            let w = number_of(s, base, n - 1)->0;
            assert(w * base >= 0) by (nonlinear_arith)
                requires
                    w >= 0,
                    base >= 1,
            ;
        }
    }
}

/// The number that a string is in the base, where it is one that is not above
/// `max`.
pub(crate) fn parse_number(s: &[char], base: u64, max: u64) -> (n: Option<u64>)
    requires
        2 <= base <= 36,
    ensures
        match (n, parsed(s@, base as int, max as int)) {
            (Some(v), Some(w)) => v == w,
            (None, None) => true,
            _ => false,
        },
{
    let start: usize = if s.len() > 1 && s[0] == '+' {
        1
    } else {
        0
    };
    let ghost digits = s@.skip(start as int);
    proof {
        assert(s@.skip(0) =~= s@);
    }
    if start == s.len() {
        return None;
    }
    let mut v: u64 = 0;
    let mut i: usize = start;
    while i < s.len()
        invariant
            2 <= base <= 36,
            start <= i <= s@.len(),
            start < s@.len(),
            digits == s@.skip(start as int),
            digits == if s@.len() > 1 && s@[0] == '+' {
                s@.skip(1)
            } else {
                s@
            },
            number_of(digits, base as int, i - start) == Some(v as int),
            v <= max,
        decreases s.len() - i,
    {
        proof {
            lemma_number_grows(digits, base as int, i + 1 - start, digits.len() as int);
            assert(digits[i - start] == s@[i as int]);
        }
        let d: u64 = match value_of_digit(s[i], base) {
            Some(d) => d,
            None => {
                return None;
            },
        };
        proof {
            assert(0 <= v * base <= 0xFFFF_FFFF_FFFF_FFFF * 36) by (nonlinear_arith)
                requires
                    0 <= v <= 0xFFFF_FFFF_FFFF_FFFF,
                    0 <= base <= 36,
            ;
        }
        let wide: u128 = v as u128 * base as u128 + d as u128;
        if wide > max as u128 {
            return None;
        }
        v = wide as u64;
        i = i + 1;
    }
    Some(v)
}

/// White space: what has the Unicode property of that name.
pub open spec fn is_white(c: char) -> bool {
    ||| '\u{9}' <= c <= '\u{D}'
    ||| c == ' '
    ||| c == '\u{85}'
    ||| c == '\u{A0}'
    ||| c == '\u{1680}'
    ||| '\u{2000}' <= c <= '\u{200A}'
    ||| c == '\u{2028}'
    ||| c == '\u{2029}'
    ||| c == '\u{202F}'
    ||| c == '\u{205F}'
    ||| c == '\u{3000}'
}

fn white(c: char) -> (b: bool)
    ensures
        b == is_white(c),
{
    ('\u{9}' <= c && c <= '\u{D}') || c == ' ' || c == '\u{85}' || c == '\u{A0}' || c
        == '\u{1680}' || ('\u{2000}' <= c && c <= '\u{200A}') || c == '\u{2028}' || c
        == '\u{2029}' || c == '\u{202F}' || c == '\u{205F}' || c == '\u{3000}'
}

/// A string without the white space at its start.
pub open spec fn trimmed_start(s: Seq<char>) -> Seq<char>
    decreases s.len(),
{
    if s.len() > 0 && is_white(s[0]) {
        trimmed_start(s.skip(1))
    } else {
        s
    }
}

/// A string without the white space at its end.
pub open spec fn trimmed_end(s: Seq<char>) -> Seq<char>
    decreases s.len(),
{
    if s.len() > 0 && is_white(s.last()) {
        trimmed_end(s.drop_last())
    } else {
        s
    }
}

/// A string without the white space around it.
pub open spec fn trimmed(s: Seq<char>) -> Seq<char> {
    trimmed_end(trimmed_start(s))
}

/// A string without the white space around it.
pub(crate) fn trim(s: &str) -> (t: &str)
    ensures
        t@ == trimmed(s@),
{
    let chars: Vec<char> = chars_of(s);
    let mut start: usize = 0;
    let mut end: usize = chars.len();
    proof {
        assert(s@.skip(0) =~= s@);
    }
    while start < end && white(chars[start])
        invariant
            chars@ == s@,
            end == chars@.len(),
            start <= end,
            trimmed_start(s@.skip(start as int)) == trimmed_start(s@),
        decreases end - start,
    {
        proof {
            assert(s@.skip(start as int).skip(1) =~= s@.skip(start + 1));
        }
        start = start + 1;
    }
    let ghost front = s@.skip(start as int);
    proof {
        assert(front == trimmed_start(s@));
        assert(s@.subrange(start as int, end as int) =~= front);
    }
    while start < end && white(chars[end - 1])
        invariant
            chars@ == s@,
            start <= end <= chars@.len(),
            trimmed_end(s@.subrange(start as int, end as int)) == trimmed(s@),
        decreases end - start,
    {
        proof {
            let now = s@.subrange(start as int, end as int);
            assert(now.last() == s@[end - 1]);
            assert(now.drop_last() =~= s@.subrange(start as int, end - 1));
        }
        end = end - 1;
    }
    s.substring_char(start, end)
}

} // verus!
