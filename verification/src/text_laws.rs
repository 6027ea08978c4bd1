//! How numbers, sizes, paths and messages are read and written.

use vstd::prelude::*;

use crate::format_args;
use crate::last_error;
use crate::paths;
use crate::paths::Step;
use crate::reparse;
use crate::text;

verus! {

/// The digit of `d`: from `0` to `9`, and from `a` on for ten and more.
pub open spec fn digit_char(d: int) -> char {
    if d < 10 {
        ('0' as int + d) as char
    } else {
        ('a' as int + (d - 10)) as char
    }
}

/// A number is written with the digit that counts most first, and without zeros
/// before it.
pub proof fn lemma_written_digit_by_digit(n: nat, d: nat, base: nat)
    requires
        2 <= base <= 16,
        d < base,
    ensures
        text::digits(d, base) == seq![digit_char(d as int)],
        n > 0 ==> text::digits(n * base + d, base) == text::digits(n, base).push(
            digit_char(d as int),
        ),
        text::dec(n) == text::digits(n, 10),
        text::hex(n) == text::digits(n, 16),
        text::oct(n) == text::digits(n, 8),
{
    if n > 0 {
        vstd::arithmetic::div_mod::lemma_fundamental_div_mod_converse(
            (n * base + d) as int,
            base as int,
            n as int,
            d as int,
        );
        assert(n * base + d >= base) by (nonlinear_arith)
            requires
                n >= 1,
                base >= 2,
        ;
    }
}

/// What a character counts as a digit: letters of either case from ten on. One
/// that is not a digit of the base counts for nothing.
pub proof fn lemma_value_of_a_digit(c: char, base: int)
    requires
        2 <= base <= 36,
    ensures
        '0' <= c <= '9' && (c as int) - ('0' as int) < base ==> text::digit_value(c, base) == (c as int)
            - ('0' as int),
        'a' <= c <= 'z' && (c as int) - ('a' as int) + 10 < base ==> text::digit_value(c, base)
            == (c as int) - ('a' as int) + 10,
        'A' <= c <= 'Z' && (c as int) - ('A' as int) + 10 < base ==> text::digit_value(c, base)
            == (c as int) - ('A' as int) + 10,
        text::digit_value(c, base) < base,
        !('0' <= c <= '9' || 'a' <= c <= 'z' || 'A' <= c <= 'Z') ==> text::digit_value(c, base)
            < 0,
        '0' <= c <= '9' && (c as int) - ('0' as int) >= base ==> text::digit_value(c, base) < 0,
        'a' <= c <= 'z' && (c as int) - ('a' as int) + 10 >= base ==> text::digit_value(c, base) < 0,
        'A' <= c <= 'Z' && (c as int) - ('A' as int) + 10 >= base ==> text::digit_value(c, base) < 0,
{
}

proof fn lemma_number_of_prefix(s: Seq<char>, t: Seq<char>, base: int, n: int)
    requires
        0 <= n <= s.len(),
        n <= t.len(),
        forall|i: int| 0 <= i < n ==> s[i] == t[i],
    ensures
        text::number_of(s, base, n) == text::number_of(t, base, n),
    decreases n,
{
    if n > 0 {
        lemma_number_of_prefix(s, t, base, n - 1);
    }
}

/// A number that is read grows by its base with every digit that is put behind
/// it. A sign before it changes nothing. What is not a number, or too great, is
/// not read.
pub proof fn lemma_read_digit_by_digit(s: Seq<char>, c: char, base: int, max: int)
    requires
        s.len() > 0,
        s[0] != '+',
        2 <= base <= 36,
        0 <= max,
    ensures
        text::parsed(Seq::empty(), base, max) is None,
        text::parsed(seq!['+'], base, max) is None,
        text::parsed(seq!['+'] + s, base, max) == text::parsed(s, base, max),
        c != '+' ==> text::parsed(seq![c], base, max) == (if 0 <= text::digit_value(c, base)
            <= max {
            Some(text::digit_value(c, base))
        } else {
            None
        }),
        text::parsed(s.push(c), base, max) == match (
            text::parsed(s, base, max),
            text::digit_value(c, base),
        ) {
            (Some(v), d) => if d >= 0 && v * base + d <= max {
                Some(v * base + d)
            } else {
                None
            },
            _ => None,
        },
{
    reveal_with_fuel(text::number_of, 3);
    assert((seq!['+'] + s).skip(1) =~= s);
    assert(0 * base == 0) by (nonlinear_arith);
    assert(text::number_of(seq![c], base, 0) == Some(0int));
    assert(text::number_of(seq![c], base, 1) == if text::digit_value(c, base) < 0 {
        None
    } else {
        Some(text::digit_value(c, base))
    });
    let n = s.len() as int;
    let t = s.push(c);
    lemma_number_of_prefix(s, t, base, n);
    lemma_number_is_not_negative(s, base, n);
    assert(t[n] == c);
    assert(text::number_of(t, base, n + 1) == match text::number_of(s, base, n) {
        Some(v) => if text::digit_value(c, base) < 0 {
            None
        } else {
            Some(v * base + text::digit_value(c, base))
        },
        None => None,
    });
    if let Some(v) = text::number_of(s, base, n) {
        assert(v * base >= v) by (nonlinear_arith)
            requires
                v >= 0,
                base >= 2,
        ;
    }
}

proof fn lemma_number_is_not_negative(s: Seq<char>, base: int, n: int)
    requires
        2 <= base,
    ensures
        text::number_of(s, base, n) matches Some(v) ==> v >= 0,
    decreases n,
{
    if n > 0 {
        lemma_number_is_not_negative(s, base, n - 1);
        if let Some(v) = text::number_of(s, base, n - 1) {
            assert(v * base >= 0) by (nonlinear_arith)
                requires
                    v >= 0,
                    base >= 2,
            ;
        }
    }
}

proof fn lemma_digits_read_back(n: nat, base: nat)
    requires
        2 <= base <= 16,
    ensures
        text::digits(n, base).len() > 0,
        text::number_of(text::digits(n, base), base as int, text::digits(n, base).len() as int)
            == Some(n as int),
        forall|i: int|
            0 <= i < text::digits(n, base).len() ==> {
                let c = #[trigger] text::digits(n, base)[i];
                ('0' <= c <= '9') || ('a' <= c <= 'f')
            },
        base <= 10 ==> forall|i: int|
            0 <= i < text::digits(n, base).len() ==> '0' <= #[trigger] text::digits(n, base)[i]
                <= '9',
    decreases n,
{
    reveal_with_fuel(text::number_of, 3);
    let s = text::digits(n, base);
    if n >= base {
        vstd::arithmetic::div_mod::lemma_div_decreases(n as int, base as int);
        vstd::arithmetic::div_mod::lemma_fundamental_div_mod(n as int, base as int);
        lemma_digits_read_back(n / base, base);
        let most = text::digits(n / base, base);
        let d = n % base;
        assert(s == most.push(text::digit(d)));
        lemma_number_of_prefix(s, most, base as int, most.len() as int);
        assert(text::digit_value(text::digit(d), base as int) == d);
        assert((n / base) * base + d == n) by (nonlinear_arith)
            requires
                n == base * (n / base) + d,
        ;
        assert forall|i: int| 0 <= i < s.len() implies {
            let c = #[trigger] s[i];
            ('0' <= c <= '9') || ('a' <= c <= 'f')
        } by {
            if i < most.len() {
                assert(s[i] == most[i]);
            }
        }
        if base <= 10 {
            assert forall|i: int| 0 <= i < s.len() implies '0' <= #[trigger] s[i] <= '9' by {
                if i < most.len() {
                    assert(s[i] == most[i]);
                }
            }
        }
    } else {
        assert(s == seq![text::digit(n)]);
        assert(text::digit_value(text::digit(n), base as int) == n);
        assert(0 * base == 0) by (nonlinear_arith);
        assert(text::number_of(s, base as int, 0) == Some(0int));
    }
}

/// A number that was written is read back, where it is not too great.
pub proof fn lemma_written_is_read_back(n: nat, base: nat, max: int)
    requires
        2 <= base <= 16,
    ensures
        text::parsed(text::digits(n, base), base as int, max) == if n <= max {
            Some(n as int)
        } else {
            None
        },
{
    lemma_digits_read_back(n, base);
    let c = text::digits(n, base)[0];
}

/// A text holds another where it is something, the other, and something.
pub proof fn lemma_what_a_text_holds(before: Seq<char>, part: Seq<char>, behind: Seq<char>, whole: Seq<char>)
    ensures
        text::contains(before + part + behind, part),
        text::contains(whole, part) ==> exists|at: int|
            0 <= at && at + part.len() <= whole.len() && whole == #[trigger] whole.take(at) + part
                + whole.skip(at + part.len()),
{
    let all = before + part + behind;
    let at = before.len() as int;
    assert(all.subrange(at, at + part.len()) =~= part);
    assert(text::stands_at(all, part, at));
    if text::contains(whole, part) {
        let k = choose|k: int| text::stands_at(whole, part, k);
        assert(whole.subrange(k, k + part.len()) == part);
        assert(whole =~= whole.take(k) + part + whole.skip(k + part.len())) by {
            assert forall|i: int| 0 <= i < whole.len() implies whole[i] == (whole.take(k) + part
                + whole.skip(k + part.len()))[i] by {
                if k <= i < k + part.len() {
                    assert(whole.subrange(k, k + part.len())[i - k] == whole[i]);
                }
            }
        }
    }
}

/// The characters that count as white space.
pub proof fn lemma_white_space(c: char)
    ensures
        text::is_white(c) <==> {
            let v = c as int;
            ||| 9 <= v <= 13
            ||| v == 0x20
            ||| v == 0x85
            ||| v == 0xA0
            ||| v == 0x1680
            ||| 0x2000 <= v <= 0x200A
            ||| v == 0x2028
            ||| v == 0x2029
            ||| v == 0x202F
            ||| v == 0x205F
            ||| v == 0x3000
        },
{
}

/// What a text has between white space is what is left of it.
pub proof fn lemma_trimmed_of_white_space(before: Seq<char>, s: Seq<char>, behind: Seq<char>)
    requires
        forall|i: int| 0 <= i < before.len() ==> text::is_white(#[trigger] before[i]),
        forall|i: int| 0 <= i < behind.len() ==> text::is_white(#[trigger] behind[i]),
        s.len() > 0,
        !text::is_white(s[0]),
        !text::is_white(s.last()),
    ensures
        text::trimmed(before + s + behind) == s,
        text::trimmed(before) == Seq::<char>::empty(),
{
    lemma_start_trimmed(before, s + behind);
    assert(before + s + behind =~= before + (s + behind));
    assert((s + behind)[0] == s[0]);
    lemma_end_trimmed(s, behind);
    lemma_start_trimmed(before, Seq::empty());
    assert(before + Seq::<char>::empty() =~= before);
}

proof fn lemma_start_trimmed(before: Seq<char>, s: Seq<char>)
    requires
        forall|i: int| 0 <= i < before.len() ==> text::is_white(#[trigger] before[i]),
        s.len() == 0 || !text::is_white(s[0]),
    ensures
        text::trimmed_start(before + s) == s,
    decreases before.len(),
{
    let all = before + s;
    if before.len() > 0 {
        assert(all[0] == before[0]);
        assert(all.skip(1) =~= before.skip(1) + s);
        lemma_start_trimmed(before.skip(1), s);
    } else {
        assert(all =~= s);
    }
}

proof fn lemma_end_trimmed(s: Seq<char>, behind: Seq<char>)
    requires
        forall|i: int| 0 <= i < behind.len() ==> text::is_white(#[trigger] behind[i]),
        s.len() > 0,
        !text::is_white(s.last()),
    ensures
        text::trimmed_end(s + behind) == s,
    decreases behind.len(),
{
    let all = s + behind;
    if behind.len() > 0 {
        assert(all.last() == behind.last());
        assert(all.drop_last() =~= s + behind.drop_last());
        lemma_end_trimmed(s, behind.drop_last());
    } else {
        assert(all =~= s);
    }
}

/// How often a letter behind a size multiplies by 1024, in either case.
pub open spec fn times_1024(c: char) -> int {
    if c == 'K' || c == 'k' {
        1024
    } else if c == 'M' || c == 'm' {
        1024int * 1024
    } else if c == 'G' || c == 'g' {
        1024int * 1024 * 1024
    } else {
        1024int * 1024 * 1024 * 1024
    }
}

/// A size is a number, or a number and a letter that multiplies it, each with a
/// letter for bytes behind it or without. It is refused exactly where 64 bits do
/// not hold it.
pub proof fn lemma_size_by_its_letter(n: nat, c: char, b: char)
    requires
        c == 'K' || c == 'k' || c == 'M' || c == 'm' || c == 'G' || c == 'g' || c == 'T' || c
            == 't',
        b == 'B' || b == 'b',
    ensures
        n <= u64::MAX ==> format_args::size_of(text::dec(n)) == Ok::<int, Seq<char>>(n as int),
        n <= u64::MAX ==> format_args::size_of(text::dec(n).push(b)) == Ok::<int, Seq<char>>(
            n as int,
        ),
        n * times_1024(c) <= u64::MAX ==> format_args::size_of(text::dec(n).push(c)) == Ok::<
            int,
            Seq<char>,
        >(n * times_1024(c)),
        n * times_1024(c) <= u64::MAX ==> format_args::size_of(text::dec(n).push(c).push(b))
            == Ok::<int, Seq<char>>(n * times_1024(c)),
        n * times_1024(c) > u64::MAX ==> format_args::size_of(text::dec(n).push(c)) is Err,
{
    let d = text::dec(n);
    lemma_digits_read_back(n, 10);
    lemma_written_is_read_back(n, 10, u64::MAX as int);
    assert('0' <= d[0] <= '9');
    assert('0' <= d.last() <= '9');
    lemma_nothing_to_trim(d);
    lemma_nothing_to_trim(d.push(b));
    lemma_nothing_to_trim(d.push(c));
    lemma_nothing_to_trim(d.push(c).push(b));
    assert(d.push(b).drop_last() =~= d);
    assert(d.push(c).drop_last() =~= d);
    assert(d.push(c).push(b).drop_last() =~= d.push(c));
    assert(n <= n * times_1024(c)) by (nonlinear_arith)
        requires
            times_1024(c) >= 1,
            n >= 0,
    ;
}

proof fn lemma_nothing_to_trim(s: Seq<char>)
    requires
        s.len() > 0,
        !text::is_white(s[0]),
        !text::is_white(s.last()),
    ensures
        text::trimmed(s) == s,
{
    lemma_trimmed_of_white_space(Seq::empty(), s, Seq::empty());
    assert(Seq::<char>::empty() + s + Seq::<char>::empty() =~= s);
}

/// A serial number is the same with the prefix of a hexadecimal number or
/// without.
pub proof fn lemma_serial_with_prefix(s: Seq<char>, v: int)
    ensures
        format_args::serial_of("0x"@ + s) == Ok::<int, Seq<char>>(v) <==> format_args::serial_of(s)
            == Ok::<int, Seq<char>>(v),
        format_args::serial_of(s) matches Ok(n) ==> 0 <= n <= u64::MAX,
{
    reveal_strlit("0x");
    reveal_strlit("0X");
    let p = "0x"@;
    assert((p + s).subrange(0, 2) =~= p);
    assert((p + s).skip(2) =~= s);
    let cleaned = format_args::without_prefix(format_args::without_prefix(s, "0x"@), "0X"@);
    let digits = if cleaned.len() > 1 && cleaned[0] == '+' {
        cleaned.skip(1)
    } else {
        cleaned
    };
    lemma_number_is_not_negative(digits, 16, digits.len() as int);
}

/// A path is the steps of what is before a slash and then those of what is behind
/// it. Between slashes, nothing and a dot are no step, two dots go up, and
/// anything else is a name.
pub proof fn lemma_steps_of_a_path(a: Seq<char>, b: Seq<char>, piece: Seq<char>)
    requires
        !piece.contains('/'),
    ensures
        paths::steps(a + seq!['/'] + b) == paths::steps(a) + paths::steps(b),
        paths::steps(piece) == (if piece.len() == 0 || piece == seq!['.'] {
            Seq::empty()
        } else if piece == seq!['.', '.'] {
            seq![Step::Up]
        } else {
            seq![Step::Name(piece)]
        }),
{
    lemma_steps_joined(a, b, 0);
    reveal_strlit(".");
    reveal_strlit("..");
    assert("."@ =~= seq!['.']);
    assert(".."@ =~= seq!['.', '.']);
    lemma_no_slash(piece, 0);
    assert(piece.subrange(0, piece.len() as int) =~= piece);
}

proof fn lemma_no_slash(s: Seq<char>, at: int)
    requires
        0 <= at <= s.len(),
        forall|i: int| at <= i < s.len() ==> s[i] != '/',
    ensures
        paths::next_slash(s, at) == s.len(),
    decreases s.len() - at,
{
    if at < s.len() {
        lemma_no_slash(s, at + 1);
    }
}

proof fn lemma_next_slash_in(a: Seq<char>, b: Seq<char>, at: int)
    requires
        0 <= at <= a.len(),
    ensures
        paths::next_slash(a + seq!['/'] + b, at) == paths::next_slash(a, at),
        at <= paths::next_slash(a, at) <= a.len(),
    decreases a.len() - at,
{
    let all = a + seq!['/'] + b;
    if at < a.len() {
        assert(all[at] == a[at]);
        if a[at] != '/' {
            lemma_next_slash_in(a, b, at + 1);
        }
    } else {
        assert(all[at] == '/');
    }
}

proof fn lemma_steps_behind(first: Seq<char>, b: Seq<char>, at: int)
    requires
        0 <= at <= b.len(),
    ensures
        paths::steps_from(first + b, first.len() + at) == paths::steps_from(b, at),
    decreases b.len() - at,
{
    let all = first + b;
    let p = first.len() as int;
    lemma_next_slash_behind(first, b, at);
    let end = paths::next_slash(b, at);
    assert(all.subrange(p + at, p + end) =~= b.subrange(at, end));
    if end < b.len() {
        lemma_steps_behind(first, b, end + 1);
    }
}

proof fn lemma_next_slash_behind(first: Seq<char>, b: Seq<char>, at: int)
    requires
        0 <= at <= b.len(),
    ensures
        paths::next_slash(first + b, first.len() + at) == first.len() + paths::next_slash(b, at),
        at <= paths::next_slash(b, at) <= b.len(),
    decreases b.len() - at,
{
    if at < b.len() {
        assert((first + b)[first.len() + at] == b[at]);
        if b[at] != '/' {
            lemma_next_slash_behind(first, b, at + 1);
        }
    }
}

proof fn lemma_steps_joined(a: Seq<char>, b: Seq<char>, at: int)
    requires
        0 <= at <= a.len(),
    ensures
        paths::steps_from(a + seq!['/'] + b, at) == paths::steps_from(a, at) + paths::steps(b),
    decreases a.len() - at,
{
    let all = a + seq!['/'] + b;
    lemma_next_slash_in(a, b, at);
    let end = paths::next_slash(a, at);
    assert(all.subrange(at, end) =~= a.subrange(at, end));
    let behind = paths::steps(b);
    if end < a.len() {
        lemma_steps_joined(a, b, end + 1);
        let rest = paths::steps_from(a, end + 1);
        match paths::step_of(a.subrange(at, end)) {
            Some(step) => {
                assert(seq![step] + (rest + behind) =~= seq![step] + rest + behind);
            },
            None => {},
        }
    } else {
        let first = a + seq!['/'];
        assert(all =~= first + b);
        lemma_steps_behind(first, b, 0);
        match paths::step_of(a.subrange(at, end)) {
            Some(step) => {
                assert(seq![step] + behind =~= seq![step] + Seq::<Step>::empty() + behind);
            },
            None => {
                assert(Seq::<Step>::empty() + behind =~= behind);
            },
        }
    }
}

/// A path comes apart at its last slash, and has no last name where it ends with
/// one or has none.
pub proof fn lemma_split_at_the_last_slash(dir: Seq<char>, name: Seq<char>)
    requires
        !name.contains('/'),
    ensures
        name.len() > 0 ==> paths::parent_and_name(dir + seq!['/'] + name) == Ok::<
            (Seq<char>, Seq<char>),
            Seq<char>,
        >(
            (
                if dir.len() == 0 {
                    seq!['/']
                } else {
                    dir
                },
                name,
            ),
        ),
        paths::parent_and_name(dir + seq!['/']) is Err,
        paths::parent_and_name(name) is Err,
        dir != seq!['/'] ==> paths::child_of(dir, name) == dir + seq!['/'] + name,
        paths::child_of(seq!['/'], name) == seq!['/'] + name,
{
    reveal_strlit("/");
    assert("/"@ =~= seq!['/']);
    let s = dir + seq!['/'] + name;
    let k = dir.len() as int;
    assert(s[k] == '/');
    assert forall|i: int| k < i < s.len() implies s[i] != '/' by {
        assert(s[i] == name[i - k - 1]);
    }
    lemma_last_slash_is(s, s.len() as int, k);
    assert(s.take(k) =~= dir);
    assert(s.skip(k + 1) =~= name);
    let t = dir + seq!['/'];
    assert(t[k] == '/');
    lemma_last_slash_is(t, t.len() as int, k);
    lemma_has_no_slash(name, name.len() as int);
    assert(dir + "/"@ + name =~= dir + seq!['/'] + name);
}

proof fn lemma_last_slash_is(s: Seq<char>, end: int, k: int)
    requires
        0 <= k < end <= s.len(),
        s[k] == '/',
        forall|i: int| k < i < end ==> s[i] != '/',
    ensures
        paths::last_slash(s, end) == Some(k),
    decreases end,
{
    if end - 1 > k {
        lemma_last_slash_is(s, end - 1, k);
    }
}

proof fn lemma_has_no_slash(s: Seq<char>, end: int)
    requires
        0 <= end <= s.len(),
        !s.contains('/'),
    ensures
        paths::last_slash(s, end) is None,
    decreases end,
{
    if end > 0 {
        assert(s.contains(s[end - 1]));
        lemma_has_no_slash(s, end - 1);
    }
}

/// The numbers by which a message is told to a caller: a message that says that
/// something is not there has that number whatever else it says, and so on down
/// the list; one that says nothing of all this is a fault of the device.
pub proof fn lemma_number_of_a_message(m: Seq<char>)
    ensures
        ({
            let missing = text::contains(m, "not found"@) || text::contains(m, "nonexistent"@)
                || text::contains(m, "ENOENT"@) || text::contains(m, "not mapped"@);
            let exists_already = text::contains(m, "already exists"@) || text::contains(
                m,
                "EEXIST"@,
            );
            let no_room = text::contains(m, "no room"@) || text::contains(m, "full"@)
                || text::contains(m, "out of space"@) || text::contains(
                m,
                "exceeds record capacity"@,
            );
            let bad = text::contains(m, "invalid"@) || text::contains(m, "null or non-UTF-8"@)
                || text::contains(m, "null "@);
            let no_dir = text::contains(m, "not a directory"@);
            let dir = text::contains(m, "is a directory"@);
            let in_use = text::contains(m, "not empty"@);
            let refused = text::contains(m, "refuse"@) || text::contains(m, "permission"@);
            let n = last_error::errno_of(m);
            &&& missing ==> n == 2
            &&& !missing && exists_already ==> n == 17
            &&& !(missing || exists_already) && no_room ==> n == 28
            &&& !(missing || exists_already || no_room) && bad ==> n == 22
            &&& !(missing || exists_already || no_room || bad) && no_dir ==> n == 20
            &&& !(missing || exists_already || no_room || bad || no_dir) && dir ==> n == 21
            &&& !(missing || exists_already || no_room || bad || no_dir || dir) && in_use ==> n
                == 66
            &&& !(missing || exists_already || no_room || bad || no_dir || dir || in_use) && refused
                ==> n == 1
            &&& !(missing || exists_already || no_room || bad || no_dir || dir || in_use || refused)
                ==> n == 5
        }),
{
}

/// A tag is shown with eight digits behind the prefix of a hexadecimal number.
pub proof fn lemma_tag_is_shown(tag: u32)
    ensures
        reparse::tag_text(tag).len() >= 10,
        reparse::tag_text(tag)[0] == '0',
        reparse::tag_text(tag)[1] == 'x',
        text::parsed(reparse::tag_text(tag).skip(2), 16, u32::MAX as int) == Some(tag as int),
{
    reveal_strlit("0x");
    let h = text::hex(tag as nat);
    let z = reparse::zeros(8 - h.len());
    lemma_zeros(8 - h.len());
    let t = reparse::tag_text(tag);
    assert(t.skip(2) =~= z + h);
    lemma_digits_read_back(tag as nat, 16);
    lemma_zeros_count_nothing(z, h, 16, h.len() as int);
    let d = z + h;
    assert(d[0] != '+') by {
        if z.len() == 0 {
            assert(d[0] == h[0]);
        }
    }
}

proof fn lemma_zeros(n: int)
    ensures
        reparse::zeros(n).len() == if n <= 0 {
            0int
        } else {
            n
        },
        forall|i: int| 0 <= i < reparse::zeros(n).len() ==> #[trigger] reparse::zeros(n)[i] == '0',
    decreases n,
{
    reveal_strlit("");
    reveal_strlit("0");
    if n > 0 {
        lemma_zeros(n - 1);
    }
}

proof fn lemma_zeros_count_nothing(z: Seq<char>, h: Seq<char>, base: int, n: int)
    requires
        2 <= base <= 16,
        forall|i: int| 0 <= i < z.len() ==> #[trigger] z[i] == '0',
        0 <= n <= h.len(),
    ensures
        text::number_of(z + h, base, z.len() + n) == text::number_of(h, base, n),
    decreases n,
{
    if n > 0 {
        lemma_zeros_count_nothing(z, h, base, n - 1);
        assert((z + h)[z.len() + n - 1] == h[n - 1]);
    } else {
        lemma_only_zeros(z, z + h, base, z.len() as int);
    }
}

proof fn lemma_only_zeros(z: Seq<char>, s: Seq<char>, base: int, n: int)
    requires
        2 <= base <= 16,
        0 <= n <= z.len() <= s.len(),
        forall|i: int| 0 <= i < z.len() ==> #[trigger] z[i] == '0',
        forall|i: int| 0 <= i < z.len() ==> #[trigger] s[i] == z[i],
    ensures
        text::number_of(s, base, n) == Some(0int),
    decreases n,
{
    if n > 0 {
        lemma_only_zeros(z, s, base, n - 1);
        assert(s[n - 1] == z[n - 1]);
        assert(0 * base == 0) by (nonlinear_arith);
    }
}

/// A link's target is given to a caller exactly where there is room for its bytes
/// and a zero.
pub proof fn lemma_target_and_a_zero(t: Seq<char>, bufsize: int)
    ensures
        reparse::target_for_buffer(Ok(t), bufsize) is Ok <==> vstd::utf8::encode_utf8(t).len()
            < bufsize,
        reparse::target_for_buffer(Ok(t), bufsize) matches Ok(b) ==> b
            == vstd::utf8::encode_utf8(t),
{
}

/// The character is a hexadecimal digit, in either case.
pub open spec fn is_hexadecimal(c: char) -> bool {
    '0' <= c <= '9' || 'a' <= c <= 'f' || 'A' <= c <= 'F'
}

/// A serial number is read from one to sixteen hexadecimal digits, and from no
/// more.
pub proof fn lemma_serial_of_digits(s: Seq<char>)
    requires
        s.len() > 0,
        forall|i: int| 0 <= i < s.len() ==> is_hexadecimal(#[trigger] s[i]),
    ensures
        s.len() > 16 ==> format_args::serial_of(s) is Err,
        s.len() <= 16 ==> (format_args::serial_of(s) matches Ok(n) && text::parsed(
            s,
            16,
            u64::MAX as int,
        ) == Some(n)),
{
    reveal_strlit("0x");
    reveal_strlit("0X");
    assert(!text::stands_at(s, "0x"@, 0)) by {
        if s.len() >= 2 && s.subrange(0, 2) == "0x"@ {
            assert(s.subrange(0, 2)[1] == s[1]);
            assert("0x"@[1] == 'x');
        }
    }
    assert(!text::stands_at(s, "0X"@, 0)) by {
        if s.len() >= 2 && s.subrange(0, 2) == "0X"@ {
            assert(s.subrange(0, 2)[1] == s[1]);
            assert("0X"@[1] == 'X');
        }
    }
    lemma_bytes_of_ascii(s);
    assert(is_hexadecimal(s[0]));
    lemma_number_of_digits(s, s.len() as int);
    if s.len() <= 16 {
        lemma_powers_grow(s.len(), 16);
        vstd::arithmetic::power2::lemma2_to64();
    }
}

proof fn lemma_powers_grow(n: nat, m: nat)
    requires
        n <= m,
    ensures
        vstd::arithmetic::power2::pow2(4 * n) <= vstd::arithmetic::power2::pow2(4 * m),
    decreases m,
{
    if n < m {
        lemma_powers_grow(n, (m - 1) as nat);
        vstd::arithmetic::power2::lemma_pow2_adds((4 * (m - 1)) as nat, 4);
        vstd::arithmetic::power2::lemma2_to64();
        assert((4 * (m - 1)) as nat + 4 == 4 * m);
    }
}

proof fn lemma_number_of_digits(s: Seq<char>, n: int)
    requires
        0 <= n <= s.len(),
        forall|i: int| 0 <= i < s.len() ==> is_hexadecimal(#[trigger] s[i]),
    ensures
        text::number_of(s, 16, n) matches Some(v) && 0 <= v < vstd::arithmetic::power2::pow2(
            (4 * n) as nat,
        ),
    decreases n,
{
    vstd::arithmetic::power2::lemma2_to64();
    if n > 0 {
        lemma_number_of_digits(s, n - 1);
        assert(is_hexadecimal(s[n - 1]));
        vstd::arithmetic::power2::lemma_pow2_adds((4 * (n - 1)) as nat, 4);
        assert((4 * (n - 1)) as nat + 4 == (4 * n) as nat);
    }
}

proof fn lemma_bytes_of_ascii(s: Seq<char>)
    requires
        forall|i: int| 0 <= i < s.len() ==> is_hexadecimal(#[trigger] s[i]),
    ensures
        vstd::utf8::encode_utf8(s).len() == s.len(),
    decreases s.len(),
{
    if s.len() > 0 {
        assert(is_hexadecimal(s[0]));
        let rest = s.drop_first();
        assert forall|i: int| 0 <= i < rest.len() implies is_hexadecimal(#[trigger] rest[i]) by {
            assert(rest[i] == s[i + 1]);
        }
        lemma_bytes_of_ascii(rest);
    }
}

/// A serial number that was written in hexadecimal digits is read back.
pub proof fn lemma_serial_is_read_back(n: u64)
    ensures
        format_args::serial_of(text::hex(n as nat)) == Ok::<int, Seq<char>>(n as int),
{
    let s = text::hex(n as nat);
    vstd::arithmetic::power2::lemma2_to64();
    lemma_few_digits(n as nat, 16);
    lemma_digits_read_back(n as nat, 16);
    assert forall|i: int| 0 <= i < s.len() implies is_hexadecimal(#[trigger] s[i]) by {
        let c = text::digits(n as nat, 16)[i];
    }
    lemma_serial_of_digits(s);
    lemma_written_is_read_back(n as nat, 16, u64::MAX as int);
}

proof fn lemma_few_digits(n: nat, k: nat)
    requires
        1 <= k,
        n < vstd::arithmetic::power2::pow2(4 * k),
    ensures
        text::hex(n).len() <= k,
    decreases k,
{
    vstd::arithmetic::power2::lemma2_to64();
    if n >= 16 {
        if k > 1 {
            vstd::arithmetic::power2::lemma_pow2_adds((4 * (k - 1)) as nat, 4);
            assert((4 * (k - 1)) as nat + 4 == 4 * k);
            lemma_few_digits(n / 16, (k - 1) as nat);
        }
    }
}

} // verus!
