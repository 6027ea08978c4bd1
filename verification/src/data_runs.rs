//! Run lists: where the clusters of a non-resident attribute are.
//!
//! A run list is a sequence of entries that ends with a zero byte or with the
//! bytes themselves. An entry is
//!
//! - a header byte: the size of the second field times 16, plus that of the
//!   first;
//! - the number of clusters, unsigned, least significant byte first;
//! - the distance from the last cluster address, signed, least significant byte
//!   first. A field of no bytes means a hole: clusters that are not on disk.

use vstd::prelude::*;

use crate::text;
use crate::text::{decimal, hexadecimal};

verus! {

/// One run of clusters.
#[derive(Debug, Clone, Copy, PartialEq, Eq, Structural)]
pub struct DataRun {
    /// The first virtual cluster number that the run covers.
    pub starting_vcn: u64,
    /// The number of clusters.
    pub length: u64,
    /// The address of the first cluster, or `None` for a hole.
    pub lcn: Option<u64>,
}

/// 256 to the power of `n`.
pub open spec fn pow256(n: nat) -> nat
    decreases n,
{
    if n == 0 {
        1
    } else {
        256 * pow256((n - 1) as nat)
    }
}

/// The number whose bytes `b` are, least significant first.
pub open spec fn uint_of(b: Seq<u8>) -> nat
    decreases b.len(),
{
    if b.len() == 0 {
        0
    } else {
        b[0] as nat + 256 * uint_of(b.skip(1))
    }
}

/// The `n` least significant bytes of `v`, least significant first.
pub open spec fn bytes_of(v: nat, n: nat) -> Seq<u8>
    decreases n,
{
    if n == 0 {
        Seq::empty()
    } else {
        seq![(v % 256) as u8] + bytes_of(v / 256, (n - 1) as nat)
    }
}

/// An `n`-byte two's complement number, from its unsigned value.
pub open spec fn signed(u: int, n: nat) -> int {
    if 2 * u >= pow256(n) {
        u - pow256(n)
    } else {
        u
    }
}

/// The unsigned value of an `n`-byte two's complement number.
pub open spec fn unsigned(v: int, n: nat) -> int {
    if v < 0 {
        v + pow256(n)
    } else {
        v
    }
}

/// `v` fits an `n`-byte two's complement number.
pub open spec fn fits(v: int, n: nat) -> bool {
    -pow256(n) <= 2 * v < pow256(n)
}

proof fn lemma_pow256_values()
    ensures
        pow256(0) == 1,
        pow256(1) == 0x100,
        pow256(2) == 0x1_0000,
        pow256(3) == 0x100_0000,
        pow256(4) == 0x1_0000_0000,
        pow256(5) == 0x100_0000_0000,
        pow256(6) == 0x1_0000_0000_0000,
        pow256(7) == 0x100_0000_0000_0000,
        pow256(8) == 0x1_0000_0000_0000_0000,
{
    reveal_with_fuel(pow256, 9);
}

proof fn lemma_pow256_grows(a: nat, b: nat)
    requires
        a <= b,
    ensures
        1 <= pow256(a) <= pow256(b),
    decreases b,
{
    if a < b {
        lemma_pow256_grows(a, (b - 1) as nat);
    } else if a > 0 {
        lemma_pow256_grows((a - 1) as nat, (b - 1) as nat);
    }
}

proof fn lemma_uint_bound(b: Seq<u8>)
    ensures
        uint_of(b) < pow256(b.len()),
    decreases b.len(),
{
    if b.len() > 0 {
        lemma_uint_bound(b.skip(1));
    }
}

proof fn lemma_bytes_len(v: nat, n: nat)
    ensures
        bytes_of(v, n).len() == n,
    decreases n,
{
    if n > 0 {
        lemma_bytes_len(v / 256, (n - 1) as nat);
    }
}

/// A number reads back from its bytes.
proof fn lemma_uint_of_bytes(v: nat, n: nat)
    requires
        v < pow256(n),
    ensures
        uint_of(bytes_of(v, n)) == v,
        bytes_of(v, n).len() == n,
    decreases n,
{
    if n > 0 {
        let rest = bytes_of(v / 256, (n - 1) as nat);
        lemma_uint_of_bytes(v / 256, (n - 1) as nat);
        assert(bytes_of(v, n).skip(1) =~= rest);
    }
}

/// The number in the `n` bytes at `at`.
fn read_uint(b: &[u8], at: usize, n: usize) -> (v: u64)
    requires
        n <= 8,
        at + n <= b.len(),
    ensures
        v == uint_of(b@.subrange(at as int, at + n)),
        v < pow256(n as nat),
{
    let mut v: u64 = 0;
    let mut i: usize = n;
    proof {
        lemma_pow256_values();
        assert(b@.subrange(at + n, at + n) =~= Seq::empty());
    }
    while i > 0
        invariant
            i <= n <= 8,
            at + n <= b.len(),
            v == uint_of(b@.subrange(at + i, at + n)),
        decreases i,
    {
        proof {
            lemma_uint_bound(b@.subrange(at + i, at + n));
            lemma_pow256_grows((n - i) as nat, 7);
            lemma_pow256_values();
            assert(b@.subrange(at + i - 1, at + n).skip(1) =~= b@.subrange(at + i, at + n));
        }
        i = i - 1;
        v = v * 256 + b[at + i] as u64;
    }
    proof {
        lemma_uint_bound(b@.subrange(at as int, at + n));
    }
    v
}

/// Appends the `n` least significant bytes of `v`.
fn push_uint(out: &mut Vec<u8>, v: u64, n: usize)
    ensures
        final(out)@ == old(out)@ + bytes_of(v as nat, n as nat),
{
    let mut rest: u64 = v;
    let mut i: usize = 0;
    proof {
        assert(out@ + bytes_of(v as nat, n as nat) =~= old(out)@ + bytes_of(v as nat, n as nat));
    }
    while i < n
        invariant
            i <= n,
            out@ + bytes_of(rest as nat, (n - i) as nat) == old(out)@ + bytes_of(
                v as nat,
                n as nat,
            ),
        decreases n - i,
    {
        let ghost before = out@;
        proof {
            let tail = bytes_of(rest as nat / 256, (n - i - 1) as nat);
            let b = (rest % 256) as u8;
            assert(bytes_of(rest as nat, (n - i) as nat) == seq![b] + tail);
            assert(before + (seq![b] + tail) =~= before.push(b) + tail);
        }
        out.push((rest % 256) as u8);
        rest = rest / 256;
        i = i + 1;
    }
    proof {
        assert(out@ + bytes_of(rest as nat, 0) =~= out@);
    }
}

/// 256 to the power of `n`.
fn power256(n: usize) -> (v: i64)
    requires
        n <= 7,
    ensures
        v == pow256(n as nat),
{
    proof {
        lemma_pow256_values();
    }
    match n {
        0 => 1,
        1 => 0x100,
        2 => 0x1_0000,
        3 => 0x100_0000,
        4 => 0x1_0000_0000,
        5 => 0x100_0000_0000,
        6 => 0x1_0000_0000_0000,
        _ => 0x100_0000_0000_0000,
    }
}

/// `raw`, whose low `nbytes` bytes are a two's complement number, as that
/// number: where the sign bit of the field is set, every bit above it becomes
/// one, and where it is not, `raw` stays as it is.
pub open spec fn sign_extended(raw: int, nbytes: nat) -> int {
    let low = raw % (pow256(nbytes) as int);
    if nbytes >= 8 || 2 * low < pow256(nbytes) {
        raw
    } else {
        low - pow256(nbytes)
    }
}

/// Extends the sign of an `nbytes`-wide field over the whole of `raw`.
pub fn sign_extend_i64(raw: i64, nbytes: usize) -> (v: i64)
    requires
        nbytes >= 1,
    ensures
        v == sign_extended(raw as int, nbytes as nat),
{
    if nbytes >= 8 {
        return raw;
    }
    let range: i64 = power256(nbytes);
    proof {
        lemma_pow256_values();
    }
    let low: i64 = if raw >= 0 {
        raw % range
    } else {
        let k: i64 = -(raw + 1);
        proof {
            lemma_negative_remainder(k as int, range as int);
        }
        range - 1 - k % range
    };
    if low >= range / 2 {
        low - range
    } else {
        raw
    }
}

proof fn lemma_negative_remainder(k: int, m: int)
    requires
        k >= 0,
        m > 0,
    ensures
        (-(k + 1)) % m == m - 1 - k % m,
{
    let q = k / m;
    let r = k % m;
    vstd::arithmetic::div_mod::lemma_fundamental_div_mod(k, m);
    assert(-(k + 1) == (-q - 1) * m + (m - 1 - r)) by (nonlinear_arith)
        requires
            k == m * q + r,
    ;
    vstd::arithmetic::div_mod::lemma_fundamental_div_mod_converse(-(k + 1), m, -q - 1, m - 1 - r);
}

/// The sizes that the header byte gives: of the length field, then of the
/// address field.
pub open spec fn field_sizes(header: u8) -> (int, int) {
    ((header % 16) as int, (header / 16) as int)
}

/// A byte as two hexadecimal digits behind `0x`.
pub open spec fn hex_byte(b: u8) -> Seq<char> {
    "0x"@ + (if b < 16 {
        "0"@
    } else {
        ""@
    }) + text::hex(b as nat)
}

pub(crate) fn hex_byte_text(b: u8) -> (s: String)
    ensures
        s@ == hex_byte(b),
{
    let pad = if b < 16 {
        "0"
    } else {
        ""
    };
    "0x".to_owned().concat(pad).concat(hexadecimal(b as u64).as_str())
}

/// The runs that the entries from `p` on describe, or what is wrong with the
/// first that describes none. `prev` is the last cluster address before `p`,
/// and `vcn` the number of clusters before it.
pub open spec fn decoded_from(b: Seq<u8>, p: int, prev: int, vcn: int) -> Result<
    Seq<DataRun>,
    Seq<char>,
>
    decreases b.len() - p,
{
    let (n, m) = field_sizes(b[p]);
    let first = p + 1;
    let second = first + n;
    let next = second + m;
    let length = uint_of(b.subrange(first, second));
    let lcn = prev + signed(uint_of(b.subrange(second, next)) as int, m as nat);
    let run = DataRun {
        starting_vcn: vcn as u64,
        length: length as u64,
        lcn: if m == 0 {
            None
        } else {
            Some(lcn as u64)
        },
    };
    if p < 0 || p >= b.len() || b[p] == 0 {
        Ok(Seq::empty())
    } else if n == 0 {
        Err("run at offset "@ + text::dec(p as nat) + ": length-byte-count is zero"@)
    } else if n > 8 || m > 8 {
        Err("run at offset "@ + text::dec(p as nat) + ": invalid header "@ + hex_byte(b[p]))
    } else if next > b.len() {
        Err(
            "run at offset "@ + text::dec(first as nat) + ": extends past data ("@ + text::dec(
                n as nat,
            ) + "+"@ + text::dec(m as nat) + " needed, "@ + text::dec((b.len() - first) as nat)
                + " left)"@,
        )
    } else if length == 0 {
        Err("run at offset "@ + text::dec(second as nat) + ": zero-cluster length"@)
    } else if m > 0 && lcn > i64::MAX {
        Err("LCN delta overflow at offset "@ + text::dec(next as nat))
    } else if m > 0 && lcn < 0 {
        Err("negative absolute LCN -"@ + text::dec((-lcn) as nat))
    } else if vcn + length > u64::MAX {
        Err("VCN overflow"@)
    } else {
        match decoded_from(b, next, if m == 0 { prev } else { lcn }, vcn + length) {
            Ok(rest) => Ok(seq![run] + rest),
            Err(e) => Err(e),
        }
    }
}

/// What `decode_runs` gives.
pub open spec fn decoded(b: Seq<u8>) -> Result<Seq<DataRun>, Seq<char>> {
    decoded_from(b, 0, 0, 0)
}

/// `got` is `want`, with vectors and strings for sequences.
pub open spec fn runs_agree(
    got: Result<Vec<DataRun>, String>,
    want: Result<Seq<DataRun>, Seq<char>>,
) -> bool {
    match (got, want) {
        (Ok(v), Ok(w)) => v@ == w,
        (Err(m), Err(w)) => m@ == w,
        _ => false,
    }
}

/// `want`, behind the runs that are already there.
pub open spec fn after_runs(
    had: Seq<DataRun>,
    want: Result<Seq<DataRun>, Seq<char>>,
) -> Result<Seq<DataRun>, Seq<char>> {
    match want {
        Ok(w) => Ok(had + w),
        Err(e) => Err(e),
    }
}

/// The signed number in the `n` bytes at `at`.
fn read_int(b: &[u8], at: usize, n: usize) -> (v: i64)
    requires
        1 <= n <= 8,
        at + n <= b.len(),
    ensures
        v == signed(uint_of(b@.subrange(at as int, at + n)) as int, n as nat),
{
    let raw: u64 = read_uint(b, at, n);
    proof {
        lemma_pow256_values();
        lemma_pow256_grows(n as nat, 8);
    }
    if n < 8 {
        proof {
            lemma_pow256_grows(n as nat, 7);
            vstd::arithmetic::div_mod::lemma_small_mod(raw as nat, pow256(n as nat));
        }
        sign_extend_i64(raw as i64, n)
    } else if raw >= 0x8000_0000_0000_0000 {
        i64::MIN + (raw - 0x8000_0000_0000_0000) as i64
    } else {
        raw as i64
    }
}

/// Decodes a run list. Stops at the first zero header byte or at the end of
/// `bytes`, whichever comes first.
pub fn decode_runs(bytes: &[u8]) -> (res: Result<Vec<DataRun>, String>)
    ensures
        runs_agree(res, decoded(bytes@)),
{
    let mut runs: Vec<DataRun> = Vec::new();
    let mut prev: i64 = 0;
    let mut vcn: u64 = 0;
    let mut p: usize = 0;
    proof {
        lemma_after_none(decoded(bytes@));
    }
    while p < bytes.len()
        invariant
            p <= bytes.len(),
            prev >= 0,
            after_runs(runs@, decoded_from(bytes@, p as int, prev as int, vcn as int)) == decoded(
                bytes@,
            ),
        decreases bytes.len() - p,
    {
        let ghost had = runs@;
        let ghost here = decoded_from(bytes@, p as int, prev as int, vcn as int);
        let header: u8 = bytes[p];
        if header == 0 {
            proof {
                lemma_after_runs_ends(had);
            }
            return Ok(runs);
        }
        let n: usize = (header % 16) as usize;
        let m: usize = (header / 16) as usize;
        if n == 0 {
            return Err(
                "run at offset ".to_owned().concat(decimal(p as u64).as_str()).concat(
                    ": length-byte-count is zero",
                ),
            );
        }
        if n > 8 || m > 8 {
            return Err(
                "run at offset ".to_owned().concat(decimal(p as u64).as_str()).concat(
                    ": invalid header ",
                ).concat(hex_byte_text(header).as_str()),
            );
        }
        let first: usize = p + 1;
        if n + m > bytes.len() - first {
            return Err(
                "run at offset ".to_owned().concat(decimal(first as u64).as_str()).concat(
                    ": extends past data (",
                ).concat(decimal(n as u64).as_str()).concat("+").concat(
                    decimal(m as u64).as_str(),
                ).concat(" needed, ").concat(
                    decimal((bytes.len() - first) as u64).as_str(),
                ).concat(" left)"),
            );
        }
        let length: u64 = read_uint(bytes, first, n);
        let second: usize = first + n;
        if length == 0 {
            return Err(
                "run at offset ".to_owned().concat(decimal(second as u64).as_str()).concat(
                    ": zero-cluster length",
                ),
            );
        }
        let next: usize = second + m;
        let mut lcn: Option<u64> = None;
        let mut new_prev: i64 = prev;
        if m > 0 {
            let delta: i64 = read_int(bytes, second, m);
            match prev.checked_add(delta) {
                None => {
                    return Err(
                        "LCN delta overflow at offset ".to_owned().concat(
                            decimal(next as u64).as_str(),
                        ),
                    );
                },
                Some(v) => {
                    if v < 0 {
                        let size: u64 = (-(v + 1)) as u64 + 1;
                        return Err(
                            "negative absolute LCN -".to_owned().concat(decimal(size).as_str()),
                        );
                    }
                    new_prev = v;
                    lcn = Some(v as u64);
                },
            }
        }
        let run = DataRun { starting_vcn: vcn, length, lcn };
        let new_vcn: u64 = match vcn.checked_add(length) {
            None => {
                return Err("VCN overflow".to_owned());
            },
            Some(v) => v,
        };
        proof {
            lemma_after_one(
                had,
                run,
                decoded_from(bytes@, next as int, new_prev as int, new_vcn as int),
            );
        }
        runs.push(run);
        p = next;
        prev = new_prev;
        vcn = new_vcn;
    }
    proof {
        lemma_after_runs_ends(runs@);
    }
    Ok(runs)
}

proof fn lemma_after_none(want: Result<Seq<DataRun>, Seq<char>>)
    ensures
        after_runs(Seq::empty(), want) == want,
{
    if let Ok(w) = want {
        assert(Seq::<DataRun>::empty() + w =~= w);
    }
}

proof fn lemma_after_runs_ends(had: Seq<DataRun>)
    ensures
        after_runs(had, Ok(Seq::empty())) == Ok::<Seq<DataRun>, Seq<char>>(had),
{
    assert(had + Seq::<DataRun>::empty() =~= had);
}

proof fn lemma_after_one(had: Seq<DataRun>, run: DataRun, rest: Result<Seq<DataRun>, Seq<char>>)
    ensures
        after_runs(had, after_runs(seq![run], rest)) == after_runs(had.push(run), rest),
{
    if let Ok(w) = rest {
        assert(had + (seq![run] + w) =~= had.push(run) + w);
    }
}

/// The least width, from `k` on, that holds `v`.
pub open spec fn width_from(v: int, k: nat) -> nat
    decreases 8 - k,
{
    if k >= 8 || fits(v, k) {
        k
    } else {
        width_from(v, k + 1)
    }
}

/// The least width in bytes, from 1 to 8, that holds `v` as a two's complement
/// number.
pub open spec fn signed_width(v: int) -> nat {
    width_from(v, 1)
}

pub(crate) proof fn lemma_width(v: int, k: nat)
    requires
        1 <= k <= 8,
        i64::MIN <= v <= i64::MAX,
    ensures
        k <= width_from(v, k) <= 8,
        fits(v, width_from(v, k)),
    decreases 8 - k,
{
    lemma_pow256_values();
    if k < 8 && !fits(v, k) {
        lemma_width(v, k + 1);
    }
}

/// The least number of bytes that holds `n` as a two's complement number.
pub fn signed_bytes_needed(n: i64) -> (w: usize)
    ensures
        w == signed_width(n as int),
        1 <= w <= 8,
        fits(n as int, w as nat),
{
    proof {
        lemma_width(n as int, 1);
        lemma_pow256_values();
    }
    let mut w: usize = 1;
    while w < 8
        invariant
            1 <= w <= 8,
            width_from(n as int, w as nat) == signed_width(n as int),
            fits(n as int, signed_width(n as int)),
            1 <= signed_width(n as int) <= 8,
        decreases 8 - w,
    {
        let half: i64 = power256(w) / 2;
        proof {
            lemma_pow256_values();
            assert(pow256(w as nat) % 2 == 0);
        }
        if n >= -half && n < half {
            return w;
        }
        w = w + 1;
    }
    w
}

/// The bytes of the entry of `run`, where the last cluster address before it
/// is `prev`.
pub open spec fn entry_bytes(run: DataRun, prev: int) -> Seq<u8> {
    let n = signed_width(run.length as int);
    match run.lcn {
        None => seq![n as u8] + bytes_of(run.length as nat, n),
        Some(lcn) => {
            let delta = lcn - prev;
            let m = signed_width(delta);
            seq![(m * 16 + n) as u8] + bytes_of(run.length as nat, n) + bytes_of(
                unsigned(delta, m) as nat,
                m,
            )
        },
    }
}

/// The bytes of the runs from `i` on and of the terminator, or what is wrong
/// with the first run that cannot be written.
pub open spec fn encoded_from(runs: Seq<DataRun>, i: int, prev: int, vcn: int) -> Result<
    Seq<u8>,
    Seq<char>,
>
    decreases runs.len() - i,
{
    let r = runs[i];
    if i < 0 || i >= runs.len() {
        Ok(seq![0u8])
    } else if r.starting_vcn != vcn {
        Err(
            "run "@ + text::dec(i as nat) + " starts at VCN "@ + text::dec(r.starting_vcn as nat)
                + " but previous runs cover up to "@ + text::dec(vcn as nat),
        )
    } else if r.length == 0 {
        Err("run "@ + text::dec(i as nat) + " has zero length"@)
    } else if r.length > i64::MAX {
        Err("run length "@ + text::dec(r.length as nat) + " exceeds i63 range"@)
    } else if r.lcn is Some && r.lcn->Some_0 > i64::MAX {
        Err("LCN "@ + text::dec(r.lcn->Some_0 as nat) + " exceeds i64 range"@)
    } else if vcn + r.length > u64::MAX {
        Err("VCN overflow"@)
    } else {
        match encoded_from(
            runs,
            i + 1,
            match r.lcn {
                Some(lcn) => lcn as int,
                None => prev,
            },
            vcn + r.length,
        ) {
            Ok(rest) => Ok(entry_bytes(r, prev) + rest),
            Err(e) => Err(e),
        }
    }
}

/// What `encode_runs` gives.
pub open spec fn encoded(runs: Seq<DataRun>) -> Result<Seq<u8>, Seq<char>> {
    encoded_from(runs, 0, 0, 0)
}

/// `got` is `want`, with vectors and strings for sequences.
pub open spec fn bytes_agree(
    got: Result<Vec<u8>, String>,
    want: Result<Seq<u8>, Seq<char>>,
) -> bool {
    match (got, want) {
        (Ok(v), Ok(w)) => v@ == w,
        (Err(m), Err(w)) => m@ == w,
        _ => false,
    }
}

/// `want`, behind the bytes that are already there.
pub open spec fn after_bytes(had: Seq<u8>, want: Result<Seq<u8>, Seq<char>>) -> Result<
    Seq<u8>,
    Seq<char>,
> {
    match want {
        Ok(w) => Ok(had + w),
        Err(e) => Err(e),
    }
}

proof fn lemma_after_bytes(had: Seq<u8>, more: Seq<u8>, rest: Result<Seq<u8>, Seq<char>>)
    ensures
        after_bytes(had, after_bytes(more, rest)) == after_bytes(had + more, rest),
        after_bytes(Seq::empty(), rest) == rest,
{
    if let Ok(w) = rest {
        assert(had + (more + w) =~= had + more + w);
        assert(Seq::<u8>::empty() + w =~= w);
    }
}

/// Appends the entry of `run`.
fn push_entry(out: &mut Vec<u8>, run: &DataRun, prev: i64)
    requires
        0 < run.length <= i64::MAX,
        run.lcn matches Some(lcn) ==> lcn <= i64::MAX,
        prev >= 0,
    ensures
        final(out)@ == old(out)@ + entry_bytes(*run, prev as int),
{
    let n: usize = signed_bytes_needed(run.length as i64);
    match run.lcn {
        None => {
            out.push(n as u8);
            push_uint(out, run.length, n);
            assert(out@ =~= old(out)@ + entry_bytes(*run, prev as int));
        },
        Some(lcn) => {
            let delta: i64 = lcn as i64 - prev;
            let m: usize = signed_bytes_needed(delta);
            out.push((m * 16 + n) as u8);
            push_uint(out, run.length, n);
            proof {
                lemma_pow256_values();
                lemma_pow256_grows(m as nat, 8);
                if m < 8 {
                    lemma_pow256_grows(m as nat, 7);
                }
            }
            let field: u64 = if delta >= 0 {
                delta as u64
            } else if m < 8 {
                (delta + power256(m)) as u64
            } else {
                0x8000_0000_0000_0000 + (delta - i64::MIN) as u64
            };
            assert(field == unsigned(delta as int, m as nat));
            push_uint(out, field, m);
            assert(out@ =~= old(out)@ + entry_bytes(*run, prev as int));
        },
    }
}

/// Encodes runs as a run list with its terminator. The runs must follow one
/// another from virtual cluster 0 on; a hole is a run of its own.
pub fn encode_runs(runs: &[DataRun]) -> (res: Result<Vec<u8>, String>)
    ensures
        bytes_agree(res, encoded(runs@)),
{
    let mut out: Vec<u8> = Vec::new();
    let mut prev: i64 = 0;
    let mut vcn: u64 = 0;
    let mut i: usize = 0;
    proof {
        lemma_after_bytes(Seq::empty(), Seq::empty(), encoded(runs@));
    }
    while i < runs.len()
        invariant
            i <= runs.len(),
            prev >= 0,
            after_bytes(out@, encoded_from(runs@, i as int, prev as int, vcn as int)) == encoded(
                runs@,
            ),
        decreases runs.len() - i,
    {
        let r = runs[i];
        let ghost had = out@;
        if r.starting_vcn != vcn {
            return Err(
                "run ".to_owned().concat(decimal(i as u64).as_str()).concat(
                    " starts at VCN ",
                ).concat(decimal(r.starting_vcn).as_str()).concat(
                    " but previous runs cover up to ",
                ).concat(decimal(vcn).as_str()),
            );
        }
        if r.length == 0 {
            return Err(
                "run ".to_owned().concat(decimal(i as u64).as_str()).concat(" has zero length"),
            );
        }
        if r.length > i64::MAX as u64 {
            return Err(
                "run length ".to_owned().concat(decimal(r.length).as_str()).concat(
                    " exceeds i63 range",
                ),
            );
        }
        let mut new_prev: i64 = prev;
        if let Some(lcn) = r.lcn {
            if lcn > i64::MAX as u64 {
                return Err(
                    "LCN ".to_owned().concat(decimal(lcn).as_str()).concat(" exceeds i64 range"),
                );
            }
            new_prev = lcn as i64;
        }
        let new_vcn: u64 = match vcn.checked_add(r.length) {
            None => {
                return Err("VCN overflow".to_owned());
            },
            Some(v) => v,
        };
        proof {
            lemma_after_bytes(
                had,
                entry_bytes(r, prev as int),
                encoded_from(runs@, i + 1, new_prev as int, new_vcn as int),
            );
        }
        push_entry(&mut out, &r, prev);
        prev = new_prev;
        vcn = new_vcn;
        i = i + 1;
    }
    let ghost had = out@;
    out.push(0);
    assert(out@ =~= had + seq![0u8]);
    Ok(out)
}

proof fn lemma_signed_of_unsigned(v: int, n: nat)
    requires
        fits(v, n),
    ensures
        0 <= unsigned(v, n) < pow256(n),
        signed(unsigned(v, n), n) == v,
{
    lemma_pow256_grows(0, n);
}

/// The fields of an entry, read back from its bytes.
proof fn lemma_entry_reads_back(run: DataRun, prev: int, b: Seq<u8>, p: int)
    requires
        0 < run.length <= i64::MAX,
        run.lcn matches Some(lcn) ==> lcn <= i64::MAX,
        0 <= prev <= i64::MAX,
        0 <= p,
        p + entry_bytes(run, prev).len() <= b.len(),
        forall|k: int|
            0 <= k < entry_bytes(run, prev).len() ==> #[trigger] b[p + k] == entry_bytes(
                run,
                prev,
            )[k],
    ensures
        ({
            let (n, m) = field_sizes(b[p]);
            let first = p + 1;
            let second = first + n;
            let next = second + m;
            &&& b[p] != 0
            &&& 1 <= n <= 8
            &&& 0 <= m <= 8
            &&& next == p + entry_bytes(run, prev).len()
            &&& uint_of(b.subrange(first, second)) == run.length
            &&& (m == 0 <==> run.lcn is None)
            &&& run.lcn matches Some(lcn) ==> prev + signed(
                uint_of(b.subrange(second, next)) as int,
                m as nat,
            ) == lcn
        }),
{
    let e = entry_bytes(run, prev);
    let n = signed_width(run.length as int);
    lemma_width(run.length as int, 1);
    lemma_uint_of_bytes(run.length as nat, n);
    assert(b[p + 0] == e[0]);
    match run.lcn {
        None => {
            assert(b[p] == n);
            assert(b.subrange(p + 1, p + 1 + n) =~= bytes_of(run.length as nat, n)) by {
                assert forall|k: int| 0 <= k < n implies b[p + 1 + k] == #[trigger] bytes_of(
                    run.length as nat,
                    n,
                )[k] by {
                    assert(b[p + (1 + k)] == e[1 + k]);
                }
            }
        },
        Some(lcn) => {
            let delta = lcn - prev;
            let m = signed_width(delta);
            lemma_width(delta, 1);
            lemma_signed_of_unsigned(delta, m);
            let u = unsigned(delta, m) as nat;
            lemma_uint_of_bytes(u, m);
            assert(b[p] == m * 16 + n);
            assert(b.subrange(p + 1, p + 1 + n) =~= bytes_of(run.length as nat, n)) by {
                assert forall|k: int| 0 <= k < n implies b[p + 1 + k] == #[trigger] bytes_of(
                    run.length as nat,
                    n,
                )[k] by {
                    assert(b[p + (1 + k)] == e[1 + k]);
                }
            }
            assert(b.subrange(p + 1 + n, p + 1 + n + m) =~= bytes_of(u, m)) by {
                assert forall|k: int| 0 <= k < m implies b[p + 1 + n + k] == #[trigger] bytes_of(
                    u,
                    m,
                )[k] by {
                    assert(b[p + (1 + n + k)] == e[1 + n + k]);
                }
            }
        },
    }
}

proof fn lemma_decode_of_encode_from(
    runs: Seq<DataRun>,
    i: int,
    prev: int,
    vcn: int,
    b: Seq<u8>,
    p: int,
)
    requires
        0 <= i <= runs.len(),
        0 <= prev <= i64::MAX,
        0 <= vcn <= u64::MAX,
        0 <= p <= b.len(),
        encoded_from(runs, i, prev, vcn) is Ok,
        b.skip(p) == encoded_from(runs, i, prev, vcn)->Ok_0,
    ensures
        decoded_from(b, p, prev, vcn) == Ok::<Seq<DataRun>, Seq<char>>(runs.skip(i)),
    decreases runs.len() - i,
{
    let w = encoded_from(runs, i, prev, vcn)->Ok_0;
    if i == runs.len() {
        assert(b.skip(p)[0] == 0);
        assert(runs.skip(i) =~= Seq::empty());
    } else {
        let r = runs[i];
        let e = entry_bytes(r, prev);
        let next_prev = match r.lcn {
            Some(lcn) => lcn as int,
            None => prev,
        };
        let rest = encoded_from(runs, i + 1, next_prev, vcn + r.length)->Ok_0;
        assert(w == e + rest);
        assert(b.skip(p).len() == b.len() - p);
        assert forall|k: int| 0 <= k < e.len() implies #[trigger] b[p + k] == e[k] by {
            assert(b.skip(p)[k] == (e + rest)[k]);
        }
        lemma_entry_reads_back(r, prev, b, p);
        let next = p + e.len();
        assert(b.skip(next) =~= rest) by {
            assert forall|k: int| 0 <= k < rest.len() implies b.skip(next)[k] == #[trigger] rest[k] by {
                assert(b.skip(p)[e.len() + k] == (e + rest)[e.len() + k]);
            }
        }
        lemma_decode_of_encode_from(runs, i + 1, next_prev, vcn + r.length, b, next);
        assert(seq![r] + runs.skip(i + 1) =~= runs.skip(i));
    }
}

/// Decoding gives back what was encoded: `encode_runs` and `decode_runs` are
/// inverse wherever there is anything to encode.
pub proof fn lemma_decode_of_encode(runs: Seq<DataRun>)
    requires
        encoded(runs) is Ok,
    ensures
        decoded(encoded(runs)->Ok_0) == Ok::<Seq<DataRun>, Seq<char>>(runs),
{
    let b = encoded(runs)->Ok_0;
    assert(b.skip(0) =~= b);
    assert(runs.skip(0) =~= runs);
    lemma_decode_of_encode_from(runs, 0, 0, 0, b, 0);
}

/// The runs follow one another from virtual cluster `vcn` on, none of them
/// empty.
pub open spec fn contiguous_from(runs: Seq<DataRun>, vcn: int) -> bool
    decreases runs.len(),
{
    runs.len() == 0 || {
        &&& runs[0].starting_vcn == vcn
        &&& runs[0].length > 0
        &&& vcn + runs[0].length <= u64::MAX
        &&& contiguous_from(runs.skip(1), vcn + runs[0].length)
    }
}

/// What a decoder gives covers the virtual clusters from 0 on without a gap or
/// an overlap, in runs that are not empty and whose addresses are not negative
/// as signed numbers.
pub proof fn lemma_decoded_is_contiguous(b: Seq<u8>)
    ensures
        decoded(b) matches Ok(runs) ==> contiguous_from(runs, 0) && forall|i: int|
            0 <= i < runs.len() ==> (#[trigger] runs[i].lcn matches Some(lcn) ==> lcn <= i64::MAX),
{
    lemma_decoded_is_contiguous_from(b, 0, 0, 0);
}

proof fn lemma_decoded_is_contiguous_from(b: Seq<u8>, p: int, prev: int, vcn: int)
    requires
        0 <= vcn <= u64::MAX,
        0 <= p,
    ensures
        decoded_from(b, p, prev, vcn) matches Ok(runs) ==> contiguous_from(runs, vcn) && forall|
            i: int,
        |
            0 <= i < runs.len() ==> (#[trigger] runs[i].lcn matches Some(lcn) ==> lcn <= i64::MAX),
    decreases b.len() - p,
{
    if let Ok(runs) = decoded_from(b, p, prev, vcn) {
        if runs.len() > 0 {
            let (n, m) = field_sizes(b[p]);
            let next = p + 1 + n + m;
            let length = uint_of(b.subrange(p + 1, p + 1 + n));
            let lcn = prev + signed(
                uint_of(b.subrange(p + 1 + n, next)) as int,
                m as nat,
            );
            let next_prev = if m == 0 {
                prev
            } else {
                lcn
            };
            lemma_decoded_is_contiguous_from(b, next, next_prev, vcn + length);
            let rest = decoded_from(b, next, next_prev, vcn + length)->Ok_0;
            assert(runs == seq![runs[0]] + rest);
            assert(runs.skip(1) =~= rest);
            assert forall|i: int| 0 <= i < runs.len() implies (#[trigger] runs[i].lcn matches Some(
                l,
            ) ==> l <= i64::MAX) by {
                if i > 0 {
                    assert(runs[i] == rest[i - 1]);
                }
            }
        }
    }
}

/// `run` covers the virtual cluster `vcn`.
pub open spec fn covers(run: DataRun, vcn: int) -> bool {
    run.starting_vcn <= vcn < run.starting_vcn + run.length
}

/// The address of `vcn` in the first run that covers it, if that is no hole.
pub open spec fn address_of(runs: Seq<DataRun>, vcn: int) -> Option<int>
    decreases runs.len(),
{
    if runs.len() == 0 {
        None
    } else if covers(runs[0], vcn) {
        match runs[0].lcn {
            Some(base) => Some(base + (vcn - runs[0].starting_vcn)),
            None => None,
        }
    } else {
        address_of(runs.skip(1), vcn)
    }
}

/// Runs that a decoder gave have an address in 64 bits for every virtual cluster
/// whose number fits 63.
pub proof fn lemma_decoded_addresses_fit(b: Seq<u8>, vcn: int)
    requires
        0 <= vcn <= i64::MAX,
    ensures
        decoded(b) matches Ok(runs) ==> (address_of(runs, vcn) matches Some(a) ==> 0 <= a
            <= u64::MAX),
{
    lemma_decoded_is_contiguous(b);
    if let Ok(runs) = decoded(b) {
        lemma_addresses_fit(runs, vcn);
    }
}

proof fn lemma_addresses_fit(runs: Seq<DataRun>, vcn: int)
    requires
        0 <= vcn <= i64::MAX,
        forall|i: int|
            0 <= i < runs.len() ==> (#[trigger] runs[i].lcn matches Some(lcn) ==> lcn <= i64::MAX),
    ensures
        address_of(runs, vcn) matches Some(a) ==> 0 <= a <= u64::MAX,
    decreases runs.len(),
{
    if runs.len() > 0 {
        let rest = runs.skip(1);
        assert forall|i: int| 0 <= i < rest.len() implies (#[trigger] rest[i].lcn matches Some(lcn)
            ==> lcn <= i64::MAX) by {
            assert(rest[i] == runs[i + 1]);
        }
        lemma_addresses_fit(rest, vcn);
        assert(runs[0].lcn matches Some(lcn) ==> lcn <= i64::MAX);
    }
}

/// The address of virtual cluster `vcn`, or `None` where it is past the end of
/// the runs or in a hole.
pub fn vcn_to_lcn(runs: &[DataRun], vcn: u64) -> (lcn: Option<u64>)
    requires
        address_of(runs@, vcn as int) matches Some(a) ==> a <= u64::MAX,
    ensures
        match lcn {
            Some(a) => address_of(runs@, vcn as int) == Some(a as int),
            None => address_of(runs@, vcn as int) is None,
        },
{
    let mut i: usize = 0;
    proof {
        assert(runs@.skip(0) =~= runs@);
    }
    while i < runs.len()
        invariant
            i <= runs.len(),
            address_of(runs@, vcn as int) matches Some(a) ==> a <= u64::MAX,
            address_of(runs@.skip(i as int), vcn as int) == address_of(runs@, vcn as int),
        decreases runs.len() - i,
    {
        let r = runs[i];
        proof {
            assert(runs@.skip(i as int)[0] == r);
            assert(runs@.skip(i as int).skip(1) =~= runs@.skip(i + 1));
        }
        if vcn >= r.starting_vcn && vcn - r.starting_vcn < r.length {
            return match r.lcn {
                Some(base) => Some(base + (vcn - r.starting_vcn)),
                None => None,
            };
        }
        i = i + 1;
    }
    None
}

/// Some virtual cluster of `[start, end)` has no address.
pub open spec fn lacks_address(runs: Seq<DataRun>, start: int, end: int) -> bool {
    exists|v: int| start <= v < end && #[trigger] address_of(runs, v) is None
}

/// How the scan for a hole in `[start, end)` ends, from the runs on, where
/// everything up to `covered` has been found on disk.
pub open spec fn hole_found(runs: Seq<DataRun>, start: int, end: int, covered: int) -> bool
    decreases runs.len(),
{
    let r = runs[0];
    let low = if r.starting_vcn < start {
        start
    } else {
        r.starting_vcn as int
    };
    let high = if r.starting_vcn + r.length < end {
        r.starting_vcn + r.length
    } else {
        end
    };
    if runs.len() == 0 || r.starting_vcn >= end {
        covered < end
    } else if high <= low {
        hole_found(runs.skip(1), start, end, covered)
    } else {
        r.lcn is None || low > covered || hole_found(runs.skip(1), start, end, high)
    }
}

/// Whether any virtual cluster of `[vcn_start, vcn_start + n_clusters)` is in a
/// hole or past the end of the runs, which are taken in the order in which they
/// stand.
pub fn range_has_hole_or_past_end(runs: &[DataRun], vcn_start: u64, n_clusters: u64) -> (b: bool)
    requires
        vcn_start + n_clusters <= u64::MAX,
    ensures
        in_order(runs@) ==> b == lacks_address(
            runs@,
            vcn_start as int,
            vcn_start + n_clusters,
        ),
        b == hole_found(
            runs@,
            vcn_start as int,
            vcn_start + n_clusters,
            vcn_start as int,
        ),
{
    let end: u64 = vcn_start + n_clusters;
    proof {
        if in_order(runs@) {
            lemma_hole_found_means_no_address(runs@, vcn_start as int, end as int);
        }
    }
    let mut covered: u64 = vcn_start;
    let mut i: usize = 0;
    proof {
        assert(runs@.skip(0) =~= runs@);
    }
    while i < runs.len()
        invariant
            i <= runs.len(),
            end == vcn_start + n_clusters,
            in_order(runs@) ==> hole_found(runs@, vcn_start as int, end as int, vcn_start as int)
                == lacks_address(runs@, vcn_start as int, end as int),
            hole_found(runs@.skip(i as int), vcn_start as int, end as int, covered as int)
                == hole_found(runs@, vcn_start as int, end as int, vcn_start as int),
        decreases runs.len() - i,
    {
        let r = runs[i];
        proof {
            assert(runs@.skip(i as int)[0] == r);
            assert(runs@.skip(i as int).skip(1) =~= runs@.skip(i + 1));
        }
        if r.starting_vcn >= end {
            return covered < end;
        }
        let low: u64 = if r.starting_vcn < vcn_start {
            vcn_start
        } else {
            r.starting_vcn
        };
        let high: u64 = if r.length < end - r.starting_vcn {
            r.starting_vcn + r.length
        } else {
            end
        };
        if high > low {
            if r.lcn.is_none() {
                return true;
            }
            if low > covered {
                return true;
            }
            covered = high;
        }
        i = i + 1;
    }
    covered < end
}

/// The runs are sorted and do not overlap.
pub open spec fn in_order(runs: Seq<DataRun>) -> bool {
    forall|i: int, j: int|
        0 <= i < j < runs.len() ==> (#[trigger] runs[i]).starting_vcn + runs[i].length <= (
        #[trigger] runs[j]).starting_vcn
}

proof fn lemma_rest_is_in_order(runs: Seq<DataRun>)
    requires
        in_order(runs),
        runs.len() > 0,
    ensures
        in_order(runs.skip(1)),
        runs.len() > 1 ==> runs[0].starting_vcn + runs[0].length <= runs.skip(1)[0].starting_vcn,
{
    let rest = runs.skip(1);
    assert forall|i: int, j: int| 0 <= i < j < rest.len() implies (#[trigger] rest[i]).starting_vcn
        + rest[i].length <= (#[trigger] rest[j]).starting_vcn by {
        assert(rest[i] == runs[i + 1] && rest[j] == runs[j + 1]);
    }
}

/// Runs that follow one another are sorted and do not overlap.
pub proof fn lemma_contiguous_is_in_order(runs: Seq<DataRun>, from: int)
    requires
        contiguous_from(runs, from),
    ensures
        in_order(runs),
        forall|i: int| 0 <= i < runs.len() ==> from <= (#[trigger] runs[i]).starting_vcn,
    decreases runs.len(),
{
    if runs.len() > 0 {
        let rest = runs.skip(1);
        lemma_contiguous_is_in_order(rest, from + runs[0].length);
        assert forall|i: int| 0 <= i < runs.len() implies from <= (
        #[trigger] runs[i]).starting_vcn by {
            if i > 0 {
                assert(runs[i] == rest[i - 1]);
            }
        }
        assert forall|i: int, j: int| 0 <= i < j < runs.len() implies (
        #[trigger] runs[i]).starting_vcn + runs[i].length <= (#[trigger] runs[j]).starting_vcn by {
            assert(runs[j] == rest[j - 1]);
            if i > 0 {
                assert(runs[i] == rest[i - 1]);
            }
        }
    }
}

/// What lies before the first of sorted runs has no address.
proof fn lemma_no_address_before(runs: Seq<DataRun>, vcn: int)
    requires
        in_order(runs),
        runs.len() > 0 ==> vcn < runs[0].starting_vcn,
    ensures
        address_of(runs, vcn) is None,
    decreases runs.len(),
{
    if runs.len() > 0 {
        lemma_rest_is_in_order(runs);
        lemma_no_address_before(runs.skip(1), vcn);
    }
}

proof fn lemma_hole_found_from(runs: Seq<DataRun>, start: int, end: int, covered: int)
    requires
        in_order(runs),
        start <= covered <= end,
        covered == start || runs.len() == 0 || covered <= runs[0].starting_vcn,
    ensures
        hole_found(runs, start, end, covered) == lacks_address(runs, covered, end),
    decreases runs.len(),
{
    if runs.len() == 0 {
        if covered < end {
            assert(address_of(runs, covered) is None);
        }
    } else {
        let r = runs[0];
        let rest = runs.skip(1);
        let low = if r.starting_vcn < start {
            start
        } else {
            r.starting_vcn as int
        };
        let high = if r.starting_vcn + r.length < end {
            r.starting_vcn + r.length
        } else {
            end
        };
        lemma_rest_is_in_order(runs);
        if r.starting_vcn >= end {
            if covered < end {
                lemma_no_address_before(runs, covered);
            }
        } else if high <= low {
            lemma_hole_found_from(rest, start, end, covered);
            assert forall|v: int| covered <= v < end implies #[trigger] address_of(runs, v)
                == address_of(rest, v) by {}
            if hole_found(runs, start, end, covered) {
                let v = choose|v: int| covered <= v < end && #[trigger] address_of(rest, v) is None;
                assert(address_of(runs, v) is None);
            }
        } else if r.lcn is None {
            assert(covers(r, low));
            assert(address_of(runs, low) is None);
        } else if low > covered {
            lemma_no_address_before(runs, covered);
        } else {
            lemma_hole_found_from(rest, start, end, high);
            assert forall|v: int| covered <= v < high implies #[trigger] address_of(
                runs,
                v,
            ) is Some by {
                assert(covers(r, v));
            }
            assert forall|v: int| high <= v < end implies #[trigger] address_of(runs, v)
                == address_of(rest, v) by {}
            if hole_found(runs, start, end, covered) {
                let v = choose|v: int| high <= v < end && #[trigger] address_of(rest, v) is None;
                assert(address_of(runs, v) is None);
            }
        }
    }
}

/// Of runs that are sorted and do not overlap, the scan says exactly whether some
/// virtual cluster of the range has no address.
pub proof fn lemma_hole_found_means_no_address(runs: Seq<DataRun>, start: int, end: int)
    requires
        in_order(runs),
        start <= end,
    ensures
        hole_found(runs, start, end, start) == lacks_address(runs, start, end),
{
    lemma_hole_found_from(runs, start, end, start);
}

/// The first run that covers `vcn` and whose end is a number.
pub open spec fn covering_run(runs: Seq<DataRun>, vcn: int) -> Option<DataRun>
    decreases runs.len(),
{
    if runs.len() == 0 {
        None
    } else if covers(runs[0], vcn) && runs[0].starting_vcn + runs[0].length <= u64::MAX {
        Some(runs[0])
    } else {
        covering_run(runs.skip(1), vcn)
    }
}

/// The first run that covers `vcn` and whose end is a number.
pub(crate) fn find_run(runs: &[DataRun], vcn: u64) -> (r: Option<DataRun>)
    ensures
        r == covering_run(runs@, vcn as int),
        r matches Some(run) ==> covers(run, vcn as int) && run.starting_vcn + run.length
            <= u64::MAX,
{
    let mut i: usize = 0;
    proof {
        assert(runs@.skip(0) =~= runs@);
    }
    while i < runs.len()
        invariant
            i <= runs@.len(),
            covering_run(runs@.skip(i as int), vcn as int) == covering_run(runs@, vcn as int),
        decreases runs.len() - i,
    {
        let run: DataRun = runs[i];
        proof {
            assert(runs@.skip(i as int).skip(1) =~= runs@.skip(i + 1));
        }
        if run.length <= u64::MAX - run.starting_vcn && run.starting_vcn <= vcn && vcn
            < run.starting_vcn + run.length {
            return Some(run);
        }
        i = i + 1;
    }
    None
}

/// What is found covers the cluster.
pub proof fn lemma_covering_run_covers(runs: Seq<DataRun>, vcn: int)
    ensures
        covering_run(runs, vcn) matches Some(r) ==> covers(r, vcn) && r.starting_vcn + r.length
            <= u64::MAX,
    decreases runs.len(),
{
    if runs.len() > 0 {
        lemma_covering_run_covers(runs.skip(1), vcn);
    }
}

proof fn lemma_covering_run_starts(runs: Seq<DataRun>, from: int, vcn: int)
    requires
        contiguous_from(runs, from),
    ensures
        covering_run(runs, vcn) matches Some(r) ==> from <= r.starting_vcn && covers(r, vcn)
            && r.starting_vcn + r.length <= u64::MAX,
    decreases runs.len(),
{
    if runs.len() > 0 {
        lemma_covering_run_starts(runs.skip(1), from + runs[0].length, vcn);
    }
}

/// Of runs that do not overlap, the one that covers a cluster is the one found
/// for every cluster that it covers.
pub proof fn lemma_covering_run_is_the_only(runs: Seq<DataRun>, from: int, vcn: int, other: int)
    requires
        contiguous_from(runs, from),
        covering_run(runs, vcn) is Some,
        covers(covering_run(runs, vcn)->0, other),
    ensures
        covering_run(runs, other) == covering_run(runs, vcn),
    decreases runs.len(),
{
    if runs.len() > 0 {
        lemma_covering_run_starts(runs, from, vcn);
        if covers(runs[0], vcn) && runs[0].starting_vcn + runs[0].length <= u64::MAX {
        } else {
            lemma_covering_run_starts(runs.skip(1), from + runs[0].length, vcn);
            lemma_covering_run_is_the_only(runs.skip(1), from + runs[0].length, vcn, other);
        }
    }
}

} // verus!
