//! UTF-16, the form in which NTFS keeps every name.

use vstd::prelude::*;

verus! {

/// The code units of one character.
pub open spec fn units_of(c: char) -> Seq<u16> {
    let v = c as int;
    if v < 0x1_0000 {
        seq![v as u16]
    } else {
        seq![(0xD800 + (v - 0x1_0000) / 0x400) as u16, (0xDC00 + (v - 0x1_0000) % 0x400) as u16]
    }
}

/// The code units of a string.
pub open spec fn encoded(s: Seq<char>) -> Seq<u16>
    decreases s.len(),
{
    if s.len() == 0 {
        Seq::empty()
    } else {
        units_of(s[0]) + encoded(s.skip(1))
    }
}

pub open spec fn is_high_surrogate(u: u16) -> bool {
    0xD800 <= u < 0xDC00
}

pub open spec fn is_low_surrogate(u: u16) -> bool {
    0xDC00 <= u < 0xE000
}

/// The character of a surrogate pair.
pub open spec fn pair_char(hi: u16, lo: u16) -> char {
    (0x1_0000 + (hi - 0xD800) * 0x400 + (lo - 0xDC00)) as char
}

/// Decoding that puts U+FFFD in place of every unpaired surrogate.
pub open spec fn decoded_lossy(u: Seq<u16>) -> Seq<char>
    decreases u.len(),
{
    if u.len() == 0 {
        Seq::empty()
    } else if is_high_surrogate(u[0]) && u.len() > 1 && is_low_surrogate(u[1]) {
        seq![pair_char(u[0], u[1])] + decoded_lossy(u.skip(2))
    } else if is_high_surrogate(u[0]) || is_low_surrogate(u[0]) {
        seq!['\u{FFFD}'] + decoded_lossy(u.skip(1))
    } else {
        seq![u[0] as char] + decoded_lossy(u.skip(1))
    }
}

/// Every surrogate of `u` is half of a pair.
pub open spec fn valid(u: Seq<u16>) -> bool
    decreases u.len(),
{
    if u.len() == 0 {
        true
    } else if is_high_surrogate(u[0]) {
        u.len() > 1 && is_low_surrogate(u[1]) && valid(u.skip(2))
    } else {
        !is_low_surrogate(u[0]) && valid(u.skip(1))
    }
}

/// The string that `u` encodes, where it encodes one.
pub open spec fn decoded(u: Seq<u16>) -> Option<Seq<char>> {
    if valid(u) {
        Some(decoded_lossy(u))
    } else {
        None
    }
}

pub(crate) proof fn lemma_char_range(c: char)
    ensures
        0 <= (c as int) <= 0x10_FFFF,
        !(0xD800 <= (c as int) < 0xE000),
{
}

/// What an encoder writes, a decoder reads back.
pub proof fn lemma_decode_of_encode(s: Seq<char>)
    ensures
        valid(encoded(s)),
        decoded_lossy(encoded(s)) == s,
        decoded(encoded(s)) == Some(s),
    decreases s.len(),
{
    if s.len() > 0 {
        let rest = s.skip(1);
        let first = units_of(s[0]);
        let all = encoded(s);
        lemma_decode_of_encode(rest);
        let v = s[0] as int;
        lemma_char_range(s[0]);
        assert(all.skip(first.len() as int) =~= encoded(rest));
        if v < 0x1_0000 {
            assert(all[0] == v);
            assert(seq![all[0] as char] + rest =~= s);
        } else {
            let h = (v - 0x1_0000) / 0x400;
            let l = (v - 0x1_0000) % 0x400;
            assert(v == 0x1_0000 + h * 0x400 + l);
            assert(0 <= h < 0x400 && 0 <= l < 0x400);
            assert(all[0] == 0xD800 + h);
            assert(all[1] == 0xDC00 + l);
            assert(pair_char(all[0], all[1]) == s[0]);
            assert(seq![pair_char(all[0], all[1])] + rest =~= s);
        }
    } else {
        assert(s =~= Seq::<char>::empty());
    }
}

/// `str::encode_utf16`: the UTF-16 code units of the string, in order.
#[verifier::external_body]
pub(crate) fn encode_utf16(s: &str) -> (u: Vec<u16>)
    ensures
        u@ == encoded(s@),
{
    s.encode_utf16().collect()
}

/// `String::from_utf16`: the string that the code units encode, or an error
/// where a surrogate is unpaired.
#[verifier::external_body]
pub(crate) fn from_utf16(u: &[u16]) -> (s: Option<String>)
    ensures
        match decoded(u@) {
            Some(chars) => s is Some && s->Some_0@ == chars,
            None => s is None,
        },
{
    String::from_utf16(u).ok()
}

/// `String::from_utf16_lossy`: the string that the code units encode, with
/// U+FFFD for every unpaired surrogate.
#[verifier::external_body]
pub(crate) fn from_utf16_lossy(u: &[u16]) -> (s: String)
    ensures
        s@ == decoded_lossy(u@),
{
    String::from_utf16_lossy(u)
}

} // verus!
