//! Where the bytes that a command writes come from.

use vstd::prelude::*;

use crate::text;
use crate::text::{chars_of, parse_number, same_text};

verus! {

/// The blocks that the sparse pattern alternates by.
pub const SPARSE_BLOCK: usize = 4096;

/// `n` bytes of a pattern that a file is filled with.
pub open spec fn filled(pattern: Seq<char>, n: nat) -> Result<Seq<u8>, Seq<char>> {
    if pattern == "zeros"@ {
        Ok(Seq::new(n, |i: int| 0u8))
    } else if pattern == "ones"@ {
        Ok(Seq::new(n, |i: int| 0xFFu8))
    } else if pattern == "incrementing"@ {
        Ok(Seq::new(n, |i: int| (i % 256) as u8))
    } else {
        Err("unknown --pattern: "@ + pattern)
    }
}

/// `i` where it is odd, and its successor where it is even, as one byte.
pub open spec fn odd_byte(i: int) -> u8 {
    (if i % 2 == 0 {
        i % 256 + 1
    } else {
        i % 256
    }) as u8
}

/// `n` bytes of a pattern that a sparse file is filled with.
pub open spec fn sparse_filled(pattern: Seq<char>, n: nat) -> Result<Seq<u8>, Seq<char>> {
    if pattern == "zeros"@ {
        Ok(Seq::new(n, |i: int| 0u8))
    } else if pattern == "sparse"@ {
        Ok(
            Seq::new(
                n,
                |i: int|
                    if i / (SPARSE_BLOCK as int) % 2 == 0 {
                        odd_byte(i)
                    } else {
                        0u8
                    },
            ),
        )
    } else if pattern == "incrementing"@ {
        Ok(Seq::new(n, |i: int| odd_byte(i)))
    } else {
        Err("unknown --pattern: "@ + pattern)
    }
}

fn make_odd(i: usize) -> (b: u8)
    ensures
        b == odd_byte(i as int),
{
    let low: u8 = (i % 256) as u8;
    if low % 2 == 0 {
        low + 1
    } else {
        low
    }
}

/// Makes `n` bytes of a pattern for a sparse file: all of them zero, blocks of
/// data and of zeros by turns, or no zeros at all.
pub fn gen_pattern(pattern: &str, n: usize) -> (res: Result<Vec<u8>, String>)
    ensures
        match (res, sparse_filled(pattern@, n as nat)) {
            (Ok(v), Ok(w)) => v@ == w,
            (Err(m), Err(w)) => m@ == w,
            _ => false,
        },
{
    let zeros: bool = same_text(pattern, "zeros");
    let sparse: bool = same_text(pattern, "sparse");
    let incrementing: bool = same_text(pattern, "incrementing");
    if !zeros && !sparse && !incrementing {
        return Err("unknown --pattern: ".to_owned().concat(pattern));
    }
    let mut out: Vec<u8> = Vec::new();
    let mut i: usize = 0;
    while i < n
        invariant
            i <= n,
            out@.len() == i,
            zeros || sparse || incrementing,
            forall|k: int|
                0 <= k < i ==> #[trigger] out@[k] == if zeros || (sparse && k / (
                SPARSE_BLOCK as int) % 2 != 0) {
                    0u8
                } else {
                    odd_byte(k)
                },
        decreases n - i,
    {
        let b: u8 = if zeros || (sparse && i / SPARSE_BLOCK % 2 != 0) {
            0
        } else {
            make_odd(i)
        };
        out.push(b);
        i = i + 1;
    }
    proof {
        let want = sparse_filled(pattern@, n as nat)->Ok_0;
        assert(out@ =~= want);
    }
    Ok(out)
}

/// Makes `n` bytes of a pattern.
pub fn fill_pattern(pattern: &str, n: usize) -> (res: Result<Vec<u8>, String>)
    ensures
        match (res, filled(pattern@, n as nat)) {
            (Ok(v), Ok(w)) => v@ == w,
            (Err(m), Err(w)) => m@ == w,
            _ => false,
        },
{
    let zeros: bool = same_text(pattern, "zeros");
    let ones: bool = same_text(pattern, "ones");
    if !zeros && !ones && !same_text(pattern, "incrementing") {
        return Err("unknown --pattern: ".to_owned().concat(pattern));
    }
    let mut out: Vec<u8> = Vec::new();
    let mut i: usize = 0;
    while i < n
        invariant
            i <= n,
            out@.len() == i,
            forall|k: int|
                0 <= k < i ==> #[trigger] out@[k] == if zeros {
                    0u8
                } else if ones {
                    0xFFu8
                } else {
                    (k % 256) as u8
                },
        decreases n - i,
    {
        let b: u8 = if zeros {
            0
        } else if ones {
            0xFF
        } else {
            (i % 256) as u8
        };
        out.push(b);
        i = i + 1;
    }
    proof {
        assert(out@ =~= filled(pattern@, n as nat)->Ok_0);
    }
    Ok(out)
}

/// What the arguments of a write name.
pub struct Source {
    pub content: Option<String>,
    pub bytes: Option<u64>,
    pub from_file: Option<String>,
    pub pattern: String,
}

/// What the arguments of a write name.
pub struct SourceView {
    pub content: Option<Seq<char>>,
    pub bytes: Option<u64>,
    pub from_file: Option<Seq<char>>,
    pub pattern: Seq<char>,
}

impl View for Source {
    type V = SourceView;

    open spec fn view(&self) -> SourceView {
        SourceView {
            content: text::text_of(self.content),
            bytes: self.bytes,
            from_file: text::text_of(self.from_file),
            pattern: self.pattern@,
        }
    }
}

/// What a flag that is followed by `value`, where it is, makes of the source.
/// Where `whole`, all the flags of a write are known; otherwise only those of a
/// sparse one.
pub open spec fn flag_taken(
    s: SourceView,
    flag: Seq<char>,
    value: Option<Seq<char>>,
    whole: bool,
) -> Result<SourceView, Seq<char>> {
    if whole && flag == "--content"@ {
        match value {
            None => Err("--content requires a string"@),
            Some(v) => Ok(SourceView { content: Some(v), ..s }),
        }
    } else if flag == "--bytes"@ {
        match value {
            None => Err("--bytes requires a number"@),
            Some(v) => match text::parsed(v, 10, u64::MAX as int) {
                None => Err("--bytes: bad number "@ + v),
                Some(n) => Ok(SourceView { bytes: Some(n as u64), ..s }),
            },
        }
    } else if whole && flag == "--from"@ {
        match value {
            None => Err("--from requires a path"@),
            Some(v) => Ok(SourceView { from_file: Some(v), ..s }),
        }
    } else if flag == "--pattern"@ {
        match value {
            None => Err("--pattern requires a value"@),
            Some(v) => Ok(SourceView { pattern: v, ..s }),
        }
    } else {
        Err("unknown flag: "@ + flag)
    }
}

/// What the arguments from the `i`th on make of the source. Every flag has a
/// value.
pub open spec fn source_from(
    args: Seq<Seq<char>>,
    i: int,
    s: SourceView,
    whole: bool,
) -> Result<SourceView, Seq<char>>
    decreases args.len() - i,
{
    if i < 0 || i >= args.len() {
        Ok(s)
    } else {
        let value = if i + 1 < args.len() {
            Some(args[i + 1])
        } else {
            None
        };
        match flag_taken(s, args[i], value, whole) {
            Err(m) => Err(m),
            Ok(next) => source_from(args, i + 2, next, whole),
        }
    }
}

fn take_flag(source: Source, flag: &str, value: Option<&str>, whole: bool) -> (res: Result<
    Source,
    String,
>)
    ensures
        match (
            res,
            flag_taken(
                source@,
                flag@,
                match value {
                    Some(v) => Some(v@),
                    None => None,
                },
                whole,
            ),
        ) {
            (Ok(s), Ok(w)) => s@ == w && value is Some,
            (Err(m), Err(w)) => m@ == w,
            _ => false,
        },
{
    let mut s: Source = source;
    if whole && same_text(flag, "--content") {
        match value {
            None => Err("--content requires a string".to_owned()),
            Some(v) => {
                s.content = Some(v.to_owned());
                Ok(s)
            },
        }
    } else if same_text(flag, "--bytes") {
        match value {
            None => Err("--bytes requires a number".to_owned()),
            Some(v) => {
                let chars: Vec<char> = chars_of(v);
                match parse_number(chars.as_slice(), 10, u64::MAX) {
                    None => Err("--bytes: bad number ".to_owned().concat(v)),
                    Some(n) => {
                        s.bytes = Some(n);
                        Ok(s)
                    },
                }
            },
        }
    } else if whole && same_text(flag, "--from") {
        match value {
            None => Err("--from requires a path".to_owned()),
            Some(v) => {
                s.from_file = Some(v.to_owned());
                Ok(s)
            },
        }
    } else if same_text(flag, "--pattern") {
        match value {
            None => Err("--pattern requires a value".to_owned()),
            Some(v) => {
                s.pattern = v.to_owned();
                Ok(s)
            },
        }
    } else {
        Err("unknown flag: ".to_owned().concat(flag))
    }
}

/// The source before the arguments were read.
pub open spec fn no_source(pattern: Seq<char>) -> SourceView {
    SourceView { content: None, bytes: None, from_file: None, pattern }
}

fn read_flags(args: &[String], pattern: &str, whole: bool) -> (res: Result<Source, String>)
    ensures
        match (res, source_from(text::texts(args@), 0, no_source(pattern@), whole)) {
            (Ok(s), Ok(w)) => s@ == w,
            (Err(m), Err(w)) => m@ == w,
            _ => false,
        },
{
    let ghost list = text::texts(args@);
    let total: usize = args.len();
    let mut source = Source {
        content: None,
        bytes: None,
        from_file: None,
        pattern: pattern.to_owned(),
    };
    let mut i: usize = 0;
    while i < total
        invariant
            list == text::texts(args@),
            total == args@.len(),
            i <= total,
            source_from(list, i as int, source@, whole) == source_from(
                list,
                0,
                no_source(pattern@),
                whole,
            ),
        decreases total - i,
    {
        assert(list[i as int] == args@[i as int]@);
        let value: Option<&str> = if i + 1 < total {
            assert(list[i + 1] == args@[i + 1]@);
            Some(args[i + 1].as_str())
        } else {
            None
        };
        match take_flag(source, args[i].as_str(), value, whole) {
            Err(m) => {
                return Err(m);
            },
            Ok(next) => {
                source = next;
            },
        }
        i = i + 2;
    }
    Ok(source)
}

/// What is to be written.
pub enum DataSource {
    /// These bytes.
    Bytes(Vec<u8>),
    /// What the file of this name holds.
    File(String),
}

/// What is to be written.
pub enum DataView {
    Bytes(Seq<u8>),
    File(Seq<char>),
}

/// What a source says is to be written: a string before a file, and a file before
/// a pattern.
pub open spec fn chosen(s: SourceView) -> Result<DataView, Seq<char>> {
    match s.content {
        Some(c) => Ok(DataView::Bytes(vstd::utf8::encode_utf8(c))),
        None => match s.from_file {
            Some(f) => Ok(DataView::File(f)),
            None => match s.bytes {
                Some(n) => match filled(s.pattern, (n as usize) as nat) {
                    Ok(b) => Ok(DataView::Bytes(b)),
                    Err(m) => Err(m),
                },
                None => Err("write: provide one of --content / --bytes / --from"@),
            },
        },
    }
}

/// What the arguments of a write say is to be written.
pub open spec fn data_named(args: Seq<Seq<char>>) -> Result<DataView, Seq<char>> {
    match source_from(args, 0, no_source("zeros"@), true) {
        Err(m) => Err(m),
        Ok(s) => chosen(s),
    }
}

/// Reads the arguments of a write: what is to be written.
pub fn parse_data_source(args: &[String]) -> (res: Result<DataSource, String>)
    ensures
        match (res, data_named(text::texts(args@))) {
            (Ok(DataSource::Bytes(v)), Ok(DataView::Bytes(w))) => v@ == w,
            (Ok(DataSource::File(f)), Ok(DataView::File(w))) => f@ == w,
            (Err(m), Err(w)) => m@ == w,
            _ => false,
        },
{
    let source: Source = match read_flags(args, "zeros", true) {
        Ok(s) => s,
        Err(m) => {
            return Err(m);
        },
    };
    match source.content {
        Some(c) => {
            return Ok(DataSource::Bytes(c.as_str().as_bytes_vec()));
        },
        None => {},
    }
    match source.from_file {
        Some(f) => {
            return Ok(DataSource::File(f));
        },
        None => {},
    }
    match source.bytes {
        Some(n) => match fill_pattern(source.pattern.as_str(), n as usize) {
            Ok(b) => Ok(DataSource::Bytes(b)),
            Err(m) => Err(m),
        },
        None => Err("write: provide one of --content / --bytes / --from".to_owned()),
    }
}

/// The bytes that the arguments of a sparse write name.
pub open spec fn sparse_named(args: Seq<Seq<char>>) -> Result<Seq<u8>, Seq<char>> {
    match source_from(args, 0, no_source("sparse"@), false) {
        Err(m) => Err(m),
        Ok(s) => match s.bytes {
            None => Err("sparse: --bytes is required"@),
            Some(n) => sparse_filled(s.pattern, (n as usize) as nat),
        },
    }
}

/// Reads the arguments of a sparse write: the bytes that are to be written.
pub fn parse_sparse_source(args: &[String]) -> (res: Result<Vec<u8>, String>)
    ensures
        match (res, sparse_named(text::texts(args@))) {
            (Ok(v), Ok(w)) => v@ == w,
            (Err(m), Err(w)) => m@ == w,
            _ => false,
        },
{
    let source: Source = match read_flags(args, "sparse", false) {
        Ok(s) => s,
        Err(m) => {
            return Err(m);
        },
    };
    match source.bytes {
        None => Err("sparse: --bytes is required".to_owned()),
        Some(n) => gen_pattern(source.pattern.as_str(), n as usize),
    }
}

/// The dense pattern has no zeros, so that no block of it is taken for a hole.
pub proof fn lemma_incrementing_has_no_zeros(n: nat, i: int)
    requires
        0 <= i < n,
    ensures
        sparse_filled("incrementing"@, n) matches Ok(b) && b[i] != 0,
{
    reveal_strlit("incrementing");
    reveal_strlit("zeros");
    reveal_strlit("sparse");
    assert("incrementing"@.len() == 12 && "zeros"@.len() == 5 && "sparse"@.len() == 6);
    assert(odd_byte(i) != 0);
}

} // verus!
