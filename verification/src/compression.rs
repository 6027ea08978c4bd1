//! LZNT1 decompression.
//!
//! A compressed attribute is kept in compression units, each an LZNT1 stream of
//! its own. A stream is a sequence of chunks. A chunk begins with a header of 16
//! bits, least significant byte first:
//!
//! - bit 15: the body is compressed;
//! - bits 0 to 11: the length of the body, less one.
//!
//! A header of zero ends the stream, and so does the end of the input.
//!
//! The body of a chunk that is not compressed is its data. That of one that is
//! consists of groups: a byte of flags, and up to eight tokens, one for each flag
//! from the least significant on. For a flag of 0 the token is a byte of data;
//! for a flag of 1 it is 16 bits that name a length and a distance: so many bytes
//! follow, the same as those so far back. How many of the 16 bits are for the
//! distance depends on how many bytes of the chunk are there already.

use vstd::prelude::*;

use crate::bytes;
use crate::bytes::get_u16;
use crate::text;
use crate::text::decimal;

verus! {

/// The bytes of a chunk that is full.
pub const CHUNK_SIZE: usize = 4096;

/// `range`, halved as often as `span` has to be to come below 16.
pub open spec fn range_for(span: int, range: int) -> int
    decreases span,
{
    if span < 16 {
        range
    } else {
        range_for(span / 2, range / 2)
    }
}

/// The number of lengths that a token can name where `cur` bytes of the chunk
/// are there. The more there are, the more of the token is for the distance.
pub open spec fn length_range(cur: int) -> int {
    range_for(cur - 1, 4096)
}

/// The length and the distance that a token names where `cur` bytes of the chunk
/// are there.
pub open spec fn token_parts(token: int, cur: int) -> (int, int) {
    (token % length_range(cur) + 3, token / length_range(cur) + 1)
}

proof fn lemma_range_is_power_of_two()
    ensures
        bytes::power_of_two(4096),
{
    reveal_with_fuel(bytes::power_of_two, 13);
}

proof fn lemma_range_for(span: int, range: int)
    requires
        0 <= span < 16 * range,
        bytes::power_of_two(range),
    ensures
        0 < range_for(span, range) <= range,
        (span + 1) * range_for(span, range) <= 16 * range,
    decreases span,
{
    if span >= 16 {
        lemma_range_for(span / 2, range / 2);
        let r = range_for(span, range);
        let h = span / 2 + 1;
        assert((span + 1) * r <= 2 * (h * r)) by (nonlinear_arith)
            requires
                span + 1 <= 2 * h,
                r > 0,
        ;
    } else {
        assert((span + 1) * range <= 16 * range) by (nonlinear_arith)
            requires
                span + 1 <= 16,
                range > 0,
        ;
    }
}

/// Every byte of the chunk that is there can be reached: a token can name any
/// distance up to `cur`.
pub proof fn lemma_every_distance_can_be_named(cur: int, distance: int)
    requires
        1 <= distance <= cur <= 65536,
    ensures
        0 <= (distance - 1) * length_range(cur) < 65536,
        token_parts((distance - 1) * length_range(cur), cur) == (3int, distance),
{
    lemma_range_is_power_of_two();
    lemma_range_for(cur - 1, 4096);
    let r = length_range(cur);
    assert((distance - 1) * r < cur * r) by (nonlinear_arith)
        requires
            distance - 1 < cur,
            r > 0,
    ;
    assert(0 <= (distance - 1) * r) by (nonlinear_arith)
        requires
            distance >= 1,
            r > 0,
    ;
    vstd::arithmetic::div_mod::lemma_fundamental_div_mod_converse(
        (distance - 1) * r,
        r,
        distance - 1,
        0,
    );
}

/// Splits a token into the length and the distance that it names, where `cur`
/// bytes of the chunk are there.
pub fn split_token(token: u16, cur: usize) -> (res: Result<(usize, usize), String>)
    requires
        cur <= 65536,
    ensures
        match res {
            Ok((length, distance)) => cur != 0 && (length as int, distance as int) == token_parts(
                token as int,
                cur as int,
            ),
            Err(m) => cur == 0 && m@ == "LZNT1: back-reference at start of chunk"@,
        },
{
    if cur == 0 {
        return Err("LZNT1: back-reference at start of chunk".to_owned());
    }
    proof {
        lemma_range_is_power_of_two();
    }
    let mut span: usize = cur - 1;
    let mut range: usize = 4096;
    while span >= 16
        invariant
            span < 16 * range,
            range <= 4096,
            bytes::power_of_two(range as int),
            range_for(span as int, range as int) == length_range(cur as int),
        decreases span,
    {
        span = span / 2;
        range = range / 2;
    }
    Ok((token as usize % range + 3, token as usize / range + 1))
}

/// `out` followed by `n` bytes, each the same as the one `distance` bytes before
/// it.
pub open spec fn repeated(out: Seq<u8>, distance: int, n: int) -> Seq<u8>
    decreases n,
{
    if n <= 0 {
        out
    } else {
        let most = repeated(out, distance, n - 1);
        most.push(most[most.len() - distance])
    }
}

/// `out` followed by the data of a chunk's body from `i` on, where `left` flags
/// of a group are still to come. The chunk's data begins at `start`.
pub open spec fn chunk_from(
    body: Seq<u8>,
    i: int,
    flags: int,
    left: int,
    start: int,
    out: Seq<u8>,
) -> Result<Seq<u8>, Seq<char>>
    decreases body.len() - i,
{
    let cur = out.len() - start;
    if i < 0 || i >= body.len() {
        Ok(out)
    } else if left <= 0 {
        chunk_from(body, i + 1, body[i] as int, 8, start, out)
    } else if cur >= CHUNK_SIZE {
        Ok(out)
    } else if flags % 2 == 0 {
        chunk_from(body, i + 1, flags / 2, left - 1, start, out.push(body[i]))
    } else if i + 2 > body.len() {
        Err("LZNT1: truncated back-reference token"@)
    } else if cur == 0 {
        Err("LZNT1: back-reference at start of chunk"@)
    } else {
        let (length, distance) = token_parts(bytes::le16(body, i), cur);
        if distance > cur {
            Err(
                "LZNT1: back-reference displacement "@ + text::dec(distance as nat) + " exceeds "@
                    + text::dec(cur as nat) + " bytes decoded in chunk"@,
            )
        } else {
            chunk_from(body, i + 2, flags / 2, left - 1, start, repeated(out, distance, length))
        }
    }
}

/// `out` followed by the data of a chunk's body.
pub open spec fn chunk_after(body: Seq<u8>, out: Seq<u8>) -> Result<Seq<u8>, Seq<char>> {
    chunk_from(body, 0, 0, 0, out.len() as int, out)
}

/// Decodes the body of a compressed chunk onto the end of `out`.
fn decompress_chunk(body: &[u8], out: &mut Vec<u8>) -> (res: Result<(), String>)
    ensures
        match (res, chunk_after(body@, old(out)@)) {
            (Ok(_), Ok(w)) => final(out)@ == w,
            (Err(m), Err(w)) => m@ == w,
            _ => false,
        },
{
    let start: usize = out.len();
    let size: usize = body.len();
    let mut i: usize = 0;
    let mut flags: u8 = 0;
    let mut left: u8 = 0;
    while i < size
        invariant
            size == body@.len(),
            i <= size,
            left <= 8,
            start <= out@.len(),
            chunk_from(body@, i as int, flags as int, left as int, start as int, out@)
                == chunk_after(body@, old(out)@),
        decreases size - i,
    {
        if left == 0 {
            flags = body[i];
            left = 8;
            i = i + 1;
        } else if out.len() - start >= CHUNK_SIZE {
            return Ok(());
        } else if flags % 2 == 0 {
            out.push(body[i]);
            flags = flags / 2;
            left = left - 1;
            i = i + 1;
        } else {
            if size - i < 2 {
                return Err("LZNT1: truncated back-reference token".to_owned());
            }
            let token: u16 = get_u16(body, i);
            let cur: usize = out.len() - start;
            let (length, distance) = match split_token(token, cur) {
                Ok((length, distance)) => (length, distance),
                Err(m) => {
                    return Err(m);
                },
            };
            if distance > cur {
                return Err(
                    "LZNT1: back-reference displacement ".to_owned().concat(
                        decimal(distance as u64).as_str(),
                    ).concat(" exceeds ").concat(decimal(cur as u64).as_str()).concat(
                        " bytes decoded in chunk",
                    ),
                );
            }
            let ghost had = out@;
            proof {
                lemma_range_is_power_of_two();
                lemma_range_for(cur - 1, 4096);
                vstd::arithmetic::div_mod::lemma_div_pos_is_pos(
                    token as int,
                    length_range(cur as int),
                );
                vstd::arithmetic::div_mod::lemma_mod_bound(
                    token as int,
                    length_range(cur as int),
                );
            }
            let mut k: usize = 0;
            while k < length
                invariant
                    k <= length,
                    1 <= distance <= had.len(),
                    out@ == repeated(had, distance as int, k as int),
                    out@.len() == had.len() + k,
                decreases length - k,
            {
                let b: u8 = out[out.len() - distance];
                out.push(b);
                k = k + 1;
            }
            flags = flags / 2;
            left = left - 1;
            i = i + 2;
        }
    }
    Ok(())
}

/// `s`, or its first `n` where it is longer.
pub open spec fn at_most(s: Seq<u8>, n: int) -> Seq<u8> {
    if s.len() <= n {
        s
    } else {
        s.take(n)
    }
}

/// The first `max_len` bytes of `out` and the data of the stream from `pos` on.
pub open spec fn unit_from(input: Seq<u8>, pos: int, out: Seq<u8>, max_len: int) -> Result<
    Seq<u8>,
    Seq<char>,
>
    decreases input.len() - pos,
{
    let header = bytes::le16(input, pos);
    let length = header % 4096 + 1;
    let body = input.subrange(pos + 2, pos + 2 + length);
    if pos < 0 || pos + 2 > input.len() || out.len() >= max_len || header == 0 {
        Ok(at_most(out, max_len))
    } else if pos + 2 + length > input.len() {
        Err("LZNT1: chunk body ("@ + text::dec(length as nat) + ") overruns input"@)
    } else if header >= 0x8000 {
        match chunk_after(body, out) {
            Err(m) => Err(m),
            Ok(more) => unit_from(input, pos + 2 + length, more, max_len),
        }
    } else {
        unit_from(input, pos + 2 + length, out + body, max_len)
    }
}

/// The data of a compression unit, `max_len` bytes of it at most.
pub open spec fn unit(input: Seq<u8>, max_len: int) -> Result<Seq<u8>, Seq<char>> {
    unit_from(input, 0, Seq::empty(), max_len)
}

/// Decompresses a compression unit. `max_len` bounds what comes out: the bytes
/// that the unit gives to its file. Chunks behind the one that reaches it are not
/// looked at.
pub fn decompress_unit(input: &[u8], max_len: usize) -> (res: Result<Vec<u8>, String>)
    ensures
        match (res, unit(input@, max_len as int)) {
            (Ok(v), Ok(w)) => v@ == w,
            (Err(m), Err(w)) => m@ == w,
            _ => false,
        },
        res matches Ok(v) ==> v@.len() <= max_len,
{
    let capacity: usize = if max_len < 65536 {
        max_len
    } else {
        65536
    };
    let mut out: Vec<u8> = Vec::with_capacity(capacity);
    let size: usize = input.len();
    let mut pos: usize = 0;
    proof {
        assert(out@ =~= Seq::<u8>::empty());
    }
    while size - pos >= 2 && out.len() < max_len
        invariant
            size == input@.len(),
            pos <= size,
            unit_from(input@, pos as int, out@, max_len as int) == unit(input@, max_len as int),
        ensures
            unit(input@, max_len as int) == Ok::<Seq<u8>, Seq<char>>(at_most(out@, max_len as int)),
        decreases size - pos,
    {
        let header: u16 = get_u16(input, pos);
        if header == 0 {
            break ;
        }
        let length: usize = (header % 4096) as usize + 1;
        if size - pos - 2 < length {
            return Err(
                "LZNT1: chunk body (".to_owned().concat(decimal(length as u64).as_str()).concat(
                    ") overruns input",
                ),
            );
        }
        let start: usize = pos + 2;
        let end: usize = start + length;
        if header >= 0x8000 {
            match decompress_chunk(&input[start..end], &mut out) {
                Ok(_) => {},
                Err(m) => {
                    return Err(m);
                },
            }
        } else {
            let ghost had = out@;
            out.extend_from_slice(&input[start..end]);
            proof {
                assert(out@ =~= had + input@.subrange(start as int, end as int));
            }
        }
        pos = end;
    }
    out.truncate(max_len);
    Ok(out)
}

/// A stream ends here: with a header of zero, or with the input.
pub open spec fn ends_stream(tail: Seq<u8>) -> bool {
    tail.len() < 2 || (tail[0] == 0 && tail[1] == 0)
}

proof fn lemma_header(n: int, base: int, rest: Seq<u8>)
    requires
        0 <= n < 4096,
        base == 0x3000 || base == 0xB000,
    ensures
        bytes::le16(bytes::bytes16(base + n) + rest, 0) == base + n,
        (bytes::bytes16(base + n) + rest).len() == rest.len() + 2,
        (base + n) % 4096 == n,
{
    let s = bytes::bytes16(base + n) + rest;
    assert(s[0] == bytes::bytes16(base + n)[0] && s[1] == bytes::bytes16(base + n)[1]);
}

/// A chunk that is not compressed comes out as it is, and what follows the end
/// of the stream does not.
pub proof fn lemma_raw_chunk_is_copied(data: Seq<u8>, tail: Seq<u8>, max_len: int)
    requires
        1 <= data.len() <= 4096,
        ends_stream(tail),
        0 < max_len,
    ensures
        unit(bytes::bytes16(0x3000 + data.len() - 1) + (data + tail), max_len) == Ok::<
            Seq<u8>,
            Seq<char>,
        >(at_most(data, max_len)),
{
    let n = data.len() as int;
    let input = bytes::bytes16(0x3000 + n - 1) + (data + tail);
    lemma_header(n - 1, 0x3000, data + tail);
    assert(input.subrange(2, 2 + n) =~= data);
    assert(Seq::<u8>::empty() + data =~= data);
    assert(tail.len() >= 2 ==> input[2 + n] == tail[0] && input[3 + n] == tail[1]);
    assert(unit_from(input, 2 + n, data, max_len) == Ok::<Seq<u8>, Seq<char>>(
        at_most(data, max_len),
    ));
}

/// A chunk's body that has every byte of `data` as it is, where `left` flags of
/// a group are still to come.
pub open spec fn literals(data: Seq<u8>, left: int) -> Seq<u8>
    decreases
            data.len(),
            if left <= 0 {
                1int
            } else {
                0
            },
{
    if data.len() == 0 {
        Seq::empty()
    } else if left <= 0 {
        seq![0u8] + literals(data, 8)
    } else {
        seq![data[0]] + literals(data.skip(1), left - 1)
    }
}

proof fn lemma_literals(before: Seq<u8>, data: Seq<u8>, left: int, start: int, out: Seq<u8>)
    requires
        0 <= start <= out.len(),
        out.len() - start + data.len() <= CHUNK_SIZE,
    ensures
        chunk_from(before + literals(data, left), before.len() as int, 0, left, start, out) == Ok::<
            Seq<u8>,
            Seq<char>,
        >(out + data),
    decreases
            data.len(),
            if left <= 0 {
                1int
            } else {
                0
            },
{
    let body = before + literals(data, left);
    if data.len() == 0 {
        assert(out + data =~= out);
    } else if left <= 0 {
        let more = before.push(0);
        assert(body =~= more + literals(data, 8));
        assert(body[before.len() as int] == 0);
        lemma_literals(more, data, 8, start, out);
    } else {
        let more = before.push(data[0]);
        assert(body =~= more + literals(data.skip(1), left - 1));
        assert(body[before.len() as int] == data[0]);
        lemma_literals(more, data.skip(1), left - 1, start, out.push(data[0]));
        assert(out.push(data[0]) + data.skip(1) =~= out + data);
    }
}

/// A compressed chunk that repeats nothing comes out as its bytes, and what
/// follows the end of the stream does not.
pub proof fn lemma_literal_chunk_round_trips(data: Seq<u8>, tail: Seq<u8>, max_len: int)
    requires
        1 <= literals(data, 0).len() <= 4096,
        data.len() <= 4096,
        ends_stream(tail),
        0 < max_len,
    ensures
        unit(
            bytes::bytes16(0xB000 + literals(data, 0).len() - 1) + (literals(data, 0) + tail),
            max_len,
        ) == Ok::<Seq<u8>, Seq<char>>(at_most(data, max_len)),
{
    let body = literals(data, 0);
    let n = body.len() as int;
    let input = bytes::bytes16(0xB000 + n - 1) + (body + tail);
    lemma_header(n - 1, 0xB000, body + tail);
    assert(input.subrange(2, 2 + n) =~= body);
    lemma_literals(Seq::empty(), data, 0, 0, Seq::empty());
    assert(Seq::<u8>::empty() + body =~= body);
    assert(Seq::<u8>::empty() + data =~= data);
    assert(tail.len() >= 2 ==> input[2 + n] == tail[0] && input[3 + n] == tail[1]);
    assert(unit_from(input, 2 + n, data, max_len) == Ok::<Seq<u8>, Seq<char>>(
        at_most(data, max_len),
    ));
}

} // verus!
