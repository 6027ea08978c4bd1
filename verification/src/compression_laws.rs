//! What a compressed stream means, chunk by chunk and token by token.

use vstd::arithmetic::power2::{lemma2_to64, lemma_pow2_pos, lemma_pow2_unfold, pow2};
use vstd::prelude::*;

use crate::bytes;
use crate::compression;

verus! {

/// `first`, and behind it what `second` gives.
pub open spec fn behind(first: Seq<u8>, second: Result<Seq<u8>, Seq<char>>) -> Result<
    Seq<u8>,
    Seq<char>,
> {
    match second {
        Ok(s) => Ok(first + s),
        Err(m) => Err(m),
    }
}

/// The bytes that are repeated stand behind those that were there, and each is
/// the one that is `distance` before it.
pub proof fn lemma_repeated_bytes(out: Seq<u8>, distance: int, n: int)
    requires
        1 <= distance <= out.len(),
        0 <= n,
    ensures
        compression::repeated(out, distance, n).len() == out.len() + n,
        compression::repeated(out, distance, n).take(out.len() as int) == out,
        forall|k: int|
            out.len() <= k < out.len() + n ==> #[trigger] compression::repeated(out, distance, n)[k]
                == compression::repeated(out, distance, n)[k - distance],
    decreases n,
{
    if n > 0 {
        lemma_repeated_bytes(out, distance, n - 1);
        let most = compression::repeated(out, distance, n - 1);
        let all = compression::repeated(out, distance, n);
        assert(all == most.push(most[most.len() - distance]));
        assert(all.take(out.len() as int) =~= most.take(out.len() as int));
    } else {
        assert(out.take(out.len() as int) =~= out);
    }
}

proof fn lemma_repeated_behind(first: Seq<u8>, out: Seq<u8>, distance: int, n: int)
    requires
        1 <= distance <= out.len(),
    ensures
        compression::repeated(first + out, distance, n) == first + compression::repeated(
            out,
            distance,
            n,
        ),
    decreases n,
{
    if n > 0 {
        lemma_repeated_behind(first, out, distance, n - 1);
        lemma_repeated_bytes(out, distance, n - 1);
        let most = compression::repeated(out, distance, n - 1);
        assert((first + most)[first.len() + most.len() - distance] == most[most.len() - distance]);
        assert((first + most).push(most[most.len() - distance]) =~= first + most.push(
            most[most.len() - distance],
        ));
    }
}

proof fn lemma_parts_are_positive(token: int, cur: int)
    requires
        0 <= token < 65536,
        1 <= cur < 4096,
    ensures
        compression::token_parts(token, cur).0 >= 3,
        compression::token_parts(token, cur).1 >= 1,
{
    let e = lemma_width_exists(cur);
    lemma_token_split(token, cur, e);
    let r = pow2((16 - e) as nat) as int;
    lemma_pow2_pos((16 - e) as nat);
    vstd::arithmetic::div_mod::lemma_mod_bound(token, r);
    vstd::arithmetic::div_mod::lemma_div_pos_is_pos(token, r);
}

proof fn lemma_width_exists(cur: int) -> (e: int)
    requires
        1 <= cur <= 4096,
    ensures
        4 <= e <= 12,
        cur <= pow2(e as nat),
        e > 4 ==> pow2((e - 1) as nat) < cur,
{
    lemma2_to64();
    if cur <= 16 {
        4
    } else if cur <= 32 {
        5
    } else if cur <= 64 {
        6
    } else if cur <= 128 {
        7
    } else if cur <= 256 {
        8
    } else if cur <= 512 {
        9
    } else if cur <= 1024 {
        10
    } else if cur <= 2048 {
        11
    } else {
        12
    }
}

proof fn lemma_range_by_width(span: int, k: int, e: int)
    requires
        0 <= span < pow2(e as nat),
        e > 4 ==> pow2((e - 1) as nat) <= span,
        4 <= e <= k + 4,
    ensures
        compression::range_for(span, pow2(k as nat) as int) == pow2((k - (e - 4)) as nat),
    decreases e,
{
    lemma2_to64();
    if e > 4 {
        lemma_pow2_unfold(e as nat);
        lemma_pow2_unfold((e - 1) as nat);
        lemma_pow2_unfold(k as nat);
        if e == 5 {
            assert(span >= 16);
        } else {
            lemma_at_least_sixteen(e - 1);
        }
        lemma_range_by_width(span / 2, k - 1, e - 1);
    } else {
        assert(span < 16);
    }
}

proof fn lemma_at_least_sixteen(e: int)
    requires
        4 <= e,
    ensures
        pow2(e as nat) >= 16,
    decreases e,
{
    lemma2_to64();
    if e > 4 {
        lemma_pow2_unfold(e as nat);
        lemma_at_least_sixteen(e - 1);
    }
}

/// Of the 16 bits of a token the upper ones are the distance, less 1: as many as
/// it takes to count the bytes that are there, and 4 at least. The others are the
/// length, less 3.
pub proof fn lemma_token_split(token: int, cur: int, e: int)
    requires
        1 <= cur <= 4096,
        4 <= e <= 12,
        cur <= pow2(e as nat),
        e > 4 ==> pow2((e - 1) as nat) < cur,
    ensures
        compression::token_parts(token, cur) == (
            token % pow2((16 - e) as nat) as int + 3,
            token / pow2((16 - e) as nat) as int + 1,
        ),
{
    lemma2_to64();
    lemma_range_by_width(cur - 1, 12, e);
}

proof fn lemma_chunk_behind(
    body: Seq<u8>,
    i: int,
    flags: int,
    left: int,
    first: Seq<u8>,
    out: Seq<u8>,
)
    ensures
        compression::chunk_from(body, i, flags, left, first.len() as int, first + out) == behind(
            first,
            compression::chunk_from(body, i, flags, left, 0, out),
        ),
    decreases body.len() - i,
{
    let cur = out.len() as int;
    if i < 0 || i >= body.len() {
    } else if left <= 0 {
        lemma_chunk_behind(body, i + 1, body[i] as int, 8, first, out);
    } else if cur >= 4096 {
    } else if flags % 2 == 0 {
        lemma_chunk_behind(body, i + 1, flags / 2, left - 1, first, out.push(body[i]));
        assert((first + out).push(body[i]) =~= first + out.push(body[i]));
    } else if i + 2 > body.len() {
    } else if cur == 0 {
    } else {
        let token = bytes::le16(body, i);
        lemma_parts_are_positive(token, cur);
        let (length, distance) = compression::token_parts(token, cur);
        if distance <= cur {
            lemma_repeated_behind(first, out, distance, length);
            lemma_chunk_behind(
                body,
                i + 2,
                flags / 2,
                left - 1,
                first,
                compression::repeated(out, distance, length),
            );
        }
    }
}

/// The data of a chunk does not depend on what is there before it: what was there
/// stays, and behind it comes what the chunk gives by itself.
pub proof fn lemma_chunk_stands_by_itself(body: Seq<u8>, out: Seq<u8>)
    ensures
        compression::chunk_after(body, out) == match compression::chunk_after(body, Seq::empty()) {
            Ok(data) => Ok::<Seq<u8>, Seq<char>>(out + data),
            Err(m) => Err(m),
        },
{
    assert(out + Seq::<u8>::empty() =~= out);
    lemma_chunk_behind(body, 0, 0, 0, out, Seq::empty());
}

proof fn lemma_unit_behind(
    before: Seq<u8>,
    input: Seq<u8>,
    pos: int,
    first: Seq<u8>,
    out: Seq<u8>,
    max_len: int,
)
    requires
        0 <= pos,
        first.len() <= max_len,
    ensures
        compression::unit_from(before + input, before.len() + pos, first + out, max_len) == behind(
            first,
            compression::unit_from(input, pos, out, max_len - first.len()),
        ),
    decreases input.len() - pos,
{
    let whole = before + input;
    let room = max_len - first.len();
    if pos + 2 <= input.len() {
        assert(whole[before.len() + pos] == input[pos]);
        assert(whole[before.len() + pos + 1] == input[pos + 1]);
    }
    let header = bytes::le16(input, pos);
    let length = header % 4096 + 1;
    if pos + 2 > input.len() || out.len() >= room || header == 0 {
        if out.len() > room {
            assert((first + out).take(max_len) =~= first + out.take(room));
        }
    } else if pos + 2 + length <= input.len() {
        let body = input.subrange(pos + 2, pos + 2 + length);
        assert(whole.subrange(before.len() + pos + 2, before.len() + pos + 2 + length) =~= body);
        if header >= 0x8000 {
            lemma_chunk_stands_by_itself(body, out);
            lemma_chunk_stands_by_itself(body, first + out);
            if let Ok(data) = compression::chunk_after(body, Seq::empty()) {
                assert(first + out + data =~= first + (out + data));
                lemma_unit_behind(
                    before,
                    input,
                    pos + 2 + length,
                    first,
                    out + data,
                    max_len,
                );
            }
        } else {
            assert(first + out + body =~= first + (out + body));
            lemma_unit_behind(before, input, pos + 2 + length, first, out + body, max_len);
        }
    }
}

/// A stream gives the data of its first chunk and behind it that of the rest, as
/// far as there is room. A chunk whose header has the highest bit is compressed;
/// another is its own data. The low twelve bits are the length of the chunk's
/// body, less 1.
pub proof fn lemma_chunk_by_chunk(header: u16, body: Seq<u8>, rest: Seq<u8>, max_len: int)
    requires
        header != 0,
        header % 4096 + 1 == body.len(),
        0 < max_len,
    ensures
        ({
            let input = seq![(header % 256) as u8, (header / 256) as u8] + body + rest;
            let first = if header >= 0x8000 {
                compression::chunk_after(body, Seq::empty())
            } else {
                Ok(body)
            };
            compression::unit(input, max_len) == match first {
                Err(m) => Err::<Seq<u8>, Seq<char>>(m),
                Ok(data) => if data.len() >= max_len {
                    Ok(data.take(max_len))
                } else {
                    match compression::unit(rest, max_len - data.len()) {
                        Err(m) => Err(m),
                        Ok(more) => Ok(data + more),
                    }
                },
            }
        }),
{
    let before = seq![(header % 256) as u8, (header / 256) as u8] + body;
    let input = before + rest;
    let n = body.len() as int;
    assert(input[0] == (header % 256) as u8);
    assert(input[1] == (header / 256) as u8);
    assert(bytes::le16(input, 0) == header);
    assert(input.subrange(2, 2 + n) =~= body);
    let first = if header >= 0x8000 {
        compression::chunk_after(body, Seq::empty())
    } else {
        Ok(body)
    };
    assert(Seq::<u8>::empty() + body =~= body);
    if let Ok(data) = first {
        assert(data + Seq::<u8>::empty() =~= data);
        if data.len() < max_len {
            lemma_unit_behind(before, rest, 0, data, Seq::empty(), max_len);
        } else {
            assert(data.take(data.len() as int) =~= data);
        }
    }
}

/// A stream that has ended gives nothing more, and one whose chunk is not all
/// there is refused.
pub proof fn lemma_end_of_stream(input: Seq<u8>, max_len: int)
    requires
        0 < max_len,
    ensures
        input.len() < 2 || (input[0] == 0 && input[1] == 0) ==> compression::unit(input, max_len)
            == Ok::<Seq<u8>, Seq<char>>(Seq::empty()),
        input.len() >= 2 && !(input[0] == 0 && input[1] == 0) && 3 + input[0] + 256 * (input[1]
            % 16) > input.len() ==> compression::unit(input, max_len) is Err,
{
    if input.len() >= 2 {
        let a = input[0] as int;
        let b = input[1] as int;
        assert((a + 256 * b) % 4096 == a + 256 * (b % 16));
    }
}

/// A token of a compressed chunk: a byte, or the 16 bits that repeat some.
pub enum Token {
    Byte(u8),
    Again(u16),
}

/// The flags of the tokens, that of the first in the lowest bit.
pub open spec fn flags_of(list: Seq<Token>) -> int
    decreases list.len(),
{
    if list.len() == 0 {
        0
    } else {
        (if list[0] is Again {
            1int
        } else {
            0
        }) + 2 * flags_of(list.skip(1))
    }
}

/// The first `n` of the tokens, or all.
pub open spec fn group_of(list: Seq<Token>, n: int) -> Seq<Token> {
    if list.len() <= n {
        list
    } else {
        list.take(n)
    }
}

/// The bytes of the tokens, `left` of which still belong to a group: before each
/// eight tokens stand their flags.
pub open spec fn laid(list: Seq<Token>, left: int) -> Seq<u8>
    decreases
            list.len(),
            if left <= 0 {
                1int
            } else {
                0
            },
{
    if list.len() == 0 {
        Seq::empty()
    } else if left <= 0 {
        seq![flags_of(group_of(list, 8)) as u8] + laid(list, 8)
    } else {
        (match list[0] {
            Token::Byte(b) => seq![b],
            Token::Again(t) => seq![(t % 256) as u8, (t / 256) as u8],
        }) + laid(list.skip(1), left - 1)
    }
}

/// What is there when the tokens have been followed.
pub open spec fn expanded(list: Seq<Token>, out: Seq<u8>) -> Seq<u8>
    decreases list.len(),
{
    if list.len() == 0 {
        out
    } else {
        expanded(
            list.skip(1),
            match list[0] {
                Token::Byte(b) => out.push(b),
                Token::Again(t) => {
                    let (length, distance) = compression::token_parts(t as int, out.len() as int);
                    compression::repeated(out, distance, length)
                },
            },
        )
    }
}

/// Each of the tokens can be followed: there is room, and what it repeats is
/// there.
pub open spec fn followable(list: Seq<Token>, out: Seq<u8>) -> bool
    decreases list.len(),
{
    list.len() > 0 ==> {
        &&& out.len() < 4096
        &&& match list[0] {
            Token::Byte(b) => followable(list.skip(1), out.push(b)),
            Token::Again(t) => {
                let (length, distance) = compression::token_parts(t as int, out.len() as int);
                &&& distance <= out.len()
                &&& followable(list.skip(1), compression::repeated(out, distance, length))
            },
        }
    }
}

proof fn lemma_flags_fit(list: Seq<Token>, n: nat)
    requires
        list.len() <= n,
    ensures
        0 <= flags_of(list) < pow2(n),
    decreases n,
{
    lemma_pow2_pos(n);
    if list.len() > 0 {
        lemma_flags_fit(list.skip(1), (n - 1) as nat);
        lemma_pow2_unfold(n);
    }
}

proof fn lemma_next_flags(list: Seq<Token>, left: int)
    requires
        list.len() > 0,
        0 < left,
    ensures
        flags_of(group_of(list, left)) % 2 == if list[0] is Again {
            1int
        } else {
            0
        },
        flags_of(group_of(list, left)) / 2 == flags_of(group_of(list.skip(1), left - 1)),
{
    assert(group_of(list, left).skip(1) =~= group_of(list.skip(1), left - 1));
    assert(group_of(list, left)[0] == list[0]);
}

proof fn lemma_followed(
    before: Seq<u8>,
    list: Seq<Token>,
    left: int,
    flags: int,
    out: Seq<u8>,
)
    requires
        followable(list, out),
        left <= 8,
        left > 0 ==> flags == flags_of(group_of(list, left)),
    ensures
        compression::chunk_from(
            before + laid(list, left),
            before.len() as int,
            flags,
            left,
            0,
            out,
        ) == Ok::<Seq<u8>, Seq<char>>(expanded(list, out)),
    decreases
            list.len(),
            if left <= 0 {
                1int
            } else {
                0
            },
{
    let body = before + laid(list, left);
    let i = before.len() as int;
    if list.len() == 0 {
    } else if left <= 0 {
        lemma_flags_fit(group_of(list, 8), 8);
        lemma2_to64();
        let f = flags_of(group_of(list, 8));
        let more = before.push(f as u8);
        assert(body =~= more + laid(list, 8));
        assert(body[i] == f as u8);
        lemma_followed(more, list, 8, f, out);
    } else {
        lemma_next_flags(list, left);
        match list[0] {
            Token::Byte(b) => {
                let more = before.push(b);
                assert(body =~= more + laid(list.skip(1), left - 1));
                assert(body[i] == b);
                lemma_followed(more, list.skip(1), left - 1, flags / 2, out.push(b));
            },
            Token::Again(t) => {
                let more = before + seq![(t % 256) as u8, (t / 256) as u8];
                assert(body =~= more + laid(list.skip(1), left - 1));
                assert(body[i] == (t % 256) as u8);
                assert(body[i + 1] == (t / 256) as u8);
                assert(bytes::le16(body, i) == t);
                let (length, distance) = compression::token_parts(t as int, out.len() as int);
                if out.len() == 0 {
                    assert(compression::range_for(-1, 4096) == 4096);
                    assert(distance >= 1);
                }
                lemma_followed(
                    more,
                    list.skip(1),
                    left - 1,
                    flags / 2,
                    compression::repeated(out, distance, length),
                );
            },
        }
    }
}

/// A compressed chunk is what its tokens give, one after the other.
pub proof fn lemma_token_by_token(list: Seq<Token>)
    requires
        followable(list, Seq::empty()),
    ensures
        compression::chunk_after(laid(list, 0), Seq::empty()) == Ok::<Seq<u8>, Seq<char>>(
            expanded(list, Seq::empty()),
        ),
{
    lemma_followed(Seq::empty(), list, 0, 0, Seq::empty());
    assert(Seq::<u8>::empty() + laid(list, 0) =~= laid(list, 0));
}

} // verus!
