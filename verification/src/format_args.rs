//! The command that formats a volume: its arguments, and what they ask for.

use vstd::prelude::*;

use crate::text;
use crate::text::{chars_of, decimal, matches_at, parse_number, quoted, same_text, trim};

verus! {

/// What the arguments ask for.
pub struct Opts {
    pub label: Option<String>,
    pub cluster_size: Option<u32>,
    pub mft_record_size: Option<u32>,
    pub serial: Option<u64>,
    pub force: bool,
    pub quick: bool,
    pub dry_run: bool,
    pub quiet: bool,
    pub create_size: Option<u64>,
    pub device: Option<String>,
}

/// What options hold.
pub struct OptsView {
    pub label: Option<Seq<char>>,
    pub cluster_size: Option<u32>,
    pub mft_record_size: Option<u32>,
    pub serial: Option<u64>,
    pub force: bool,
    pub quick: bool,
    pub dry_run: bool,
    pub quiet: bool,
    pub create_size: Option<u64>,
    pub device: Option<Seq<char>>,
}

impl View for Opts {
    type V = OptsView;

    open spec fn view(&self) -> OptsView {
        OptsView {
            label: text::text_of(self.label),
            cluster_size: self.cluster_size,
            mft_record_size: self.mft_record_size,
            serial: self.serial,
            force: self.force,
            quick: self.quick,
            dry_run: self.dry_run,
            quiet: self.quiet,
            create_size: self.create_size,
            device: text::text_of(self.device),
        }
    }
}

/// No options.
pub open spec fn no_options() -> OptsView {
    OptsView {
        label: None,
        cluster_size: None,
        mft_record_size: None,
        serial: None,
        force: false,
        quick: false,
        dry_run: false,
        quiet: false,
        create_size: None,
        device: None,
    }
}

/// What a suffix multiplies by.
pub open spec fn multiplier(c: char) -> Option<int> {
    if c == 'K' || c == 'k' {
        Some(1024)
    } else if c == 'M' || c == 'm' {
        Some(0x10_0000)
    } else if c == 'G' || c == 'g' {
        Some(0x4000_0000)
    } else if c == 'T' || c == 't' {
        Some(0x100_0000_0000)
    } else {
        None
    }
}

/// A size without the letter for bytes.
pub open spec fn without_b(s: Seq<char>) -> Seq<char> {
    if s.len() > 0 && (s.last() == 'B' || s.last() == 'b') {
        s.drop_last()
    } else {
        s
    }
}

/// The number of bytes that a size names.
pub open spec fn size_of(arg: Seq<char>) -> Result<int, Seq<char>> {
    let t = text::trimmed(arg);
    let s = without_b(t);
    if t.len() == 0 {
        Err("--create-size: empty size argument"@)
    } else if s.len() == 0 || (multiplier(s.last()) is None && !('0' <= s.last() <= '9')) {
        Err("--create-size: unrecognised size suffix in "@ + text::debug_text(s))
    } else {
        let (digits, mult) = match multiplier(s.last()) {
            Some(m) => (s.drop_last(), m),
            None => (s, 1),
        };
        match text::parsed(digits, 10, u64::MAX as int) {
            None => Err("--create-size: not a valid number: "@ + text::debug_text(digits)),
            Some(n) => if n * mult > u64::MAX {
                Err("--create-size: "@ + s + " overflows u64"@)
            } else {
                Ok(n * mult)
            },
        }
    }
}

fn multiplier_of(c: char) -> (m: Option<u64>)
    ensures
        match (m, multiplier(c)) {
            (Some(v), Some(w)) => v == w,
            (None, None) => true,
            _ => false,
        },
{
    if c == 'K' || c == 'k' {
        Some(1024)
    } else if c == 'M' || c == 'm' {
        Some(1024 * 1024)
    } else if c == 'G' || c == 'g' {
        Some(1024 * 1024 * 1024)
    } else if c == 'T' || c == 't' {
        Some(1024 * 1024 * 1024 * 1024)
    } else {
        None
    }
}

/// The number of bytes that a size names: digits, and perhaps one of the letters
/// K, M, G and T, each 1024 times the last, and a B behind them.
pub fn parse_size(arg: &str) -> (res: Result<u64, String>)
    ensures
        match (res, size_of(arg@)) {
            (Ok(v), Ok(w)) => v == w,
            (Err(m), Err(w)) => m@ == w,
            _ => false,
        },
{
    let t: &str = trim(arg);
    let chars: Vec<char> = chars_of(t);
    let mut n: usize = chars.len();
    if n == 0 {
        return Err("--create-size: empty size argument".to_owned());
    }
    if chars[n - 1] == 'B' || chars[n - 1] == 'b' {
        n = n - 1;
    }
    let s: &str = t.substring_char(0, n);
    proof {
        assert(s@ =~= without_b(t@));
    }
    if n == 0 {
        return Err(
            "--create-size: unrecognised size suffix in ".to_owned().concat(quoted(s).as_str()),
        );
    }
    let last: char = chars[n - 1];
    assert(last == s@.last());
    let (count, mult) = match multiplier_of(last) {
        Some(m) => (n - 1, m),
        None => {
            if !('0' <= last && last <= '9') {
                return Err(
                    "--create-size: unrecognised size suffix in ".to_owned().concat(
                        quoted(s).as_str(),
                    ),
                );
            }
            (n, 1u64)
        },
    };
    let digits: &str = t.substring_char(0, count);
    proof {
        assert(digits@ =~= if count == n {
            s@
        } else {
            s@.drop_last()
        });
    }
    let digit_chars: Vec<char> = chars_of(digits);
    match parse_number(digit_chars.as_slice(), 10, u64::MAX) {
        None => Err(
            "--create-size: not a valid number: ".to_owned().concat(quoted(digits).as_str()),
        ),
        Some(v) => match v.checked_mul(mult) {
            Some(bytes) => Ok(bytes),
            None => Err("--create-size: ".to_owned().concat(s).concat(" overflows u64")),
        },
    }
}

/// A string without a prefix, as often as it stands at the start.
pub open spec fn without_prefix(s: Seq<char>, prefix: Seq<char>) -> Seq<char>
    decreases s.len(),
{
    if prefix.len() > 0 && text::stands_at(s, prefix, 0) {
        without_prefix(s.skip(prefix.len() as int), prefix)
    } else {
        s
    }
}

/// The serial number that a string names.
pub open spec fn serial_of(arg: Seq<char>) -> Result<int, Seq<char>> {
    let cleaned = without_prefix(without_prefix(arg, "0x"@), "0X"@);
    let n = vstd::utf8::encode_utf8(cleaned).len();
    if cleaned.len() == 0 || n > 16 {
        Err(
            "serial must be 1..=16 hex chars (with optional 0x prefix), got "@ + text::dec(n)
                + " chars"@,
        )
    } else {
        match text::parsed(cleaned, 16, u64::MAX as int) {
            Some(v) => Ok(v),
            None => Err("serial has non-hex character: "@ + arg),
        }
    }
}

fn skip_prefix(chars: &[char], from: usize, prefix: &str) -> (at: usize)
    requires
        from <= chars.len(),
        prefix@.len() > 0,
    ensures
        from <= at <= chars@.len(),
        chars@.skip(at as int) == without_prefix(chars@.skip(from as int), prefix@),
{
    let wanted: Vec<char> = chars_of(prefix);
    let n: usize = wanted.len();
    let mut at: usize = from;
    while matches_at(chars, wanted.as_slice(), at)
        invariant
            n == wanted@.len(),
            n > 0,
            wanted@ == prefix@,
            from <= at <= chars@.len(),
            without_prefix(chars@.skip(at as int), prefix@) == without_prefix(
                chars@.skip(from as int),
                prefix@,
            ),
        decreases chars.len() - at,
    {
        proof {
            let now = chars@.skip(at as int);
            assert(now.subrange(0, n as int) =~= chars@.subrange(at as int, at + n));
            assert(text::stands_at(now, prefix@, 0));
            assert(now.skip(n as int) =~= chars@.skip(at + n));
        }
        at = at + n;
    }
    proof {
        let now = chars@.skip(at as int);
        if text::stands_at(now, prefix@, 0) {
            assert(now.subrange(0, n as int) =~= chars@.subrange(at as int, at + n));
            assert(text::stands_at(chars@, prefix@, at as int));
        }
    }
    at
}

/// The serial number that a string of hexadecimal digits names.
pub fn parse_hex_u64(arg: &str) -> (res: Result<u64, String>)
    ensures
        match (res, serial_of(arg@)) {
            (Ok(v), Ok(w)) => v == w,
            (Err(m), Err(w)) => m@ == w,
            _ => false,
        },
{
    proof {
        reveal_strlit("0x");
        reveal_strlit("0X");
    }
    let chars: Vec<char> = chars_of(arg);
    let first: usize = skip_prefix(chars.as_slice(), 0, "0x");
    let at: usize = skip_prefix(chars.as_slice(), first, "0X");
    let cleaned: &str = arg.substring_char(at, chars.len());
    proof {
        assert(chars@.skip(0) =~= arg@);
        assert(cleaned@ =~= chars@.skip(at as int));
    }
    let bytes: Vec<u8> = cleaned.as_bytes_vec();
    if at == chars.len() || bytes.len() > 16 {
        return Err(
            "serial must be 1..=16 hex chars (with optional 0x prefix), got ".to_owned().concat(
                decimal(bytes.len() as u64).as_str(),
            ).concat(" chars"),
        );
    }
    let digits: Vec<char> = chars_of(cleaned);
    match parse_number(digits.as_slice(), 16, u64::MAX) {
        Some(v) => Ok(v),
        None => Err("serial has non-hex character: ".to_owned().concat(arg)),
    }
}

/// What an argument is.
#[derive(Clone, Copy)]
pub enum ArgKind {
    Help,
    Label,
    ClusterSize,
    MftRecordSize,
    Serial,
    Quick,
    Force,
    DryRun,
    Quiet,
    CreateSize,
    Unknown,
    Device,
}

/// What an argument is.
pub open spec fn kind_of(arg: Seq<char>) -> ArgKind {
    if arg == "-h"@ || arg == "--help"@ {
        ArgKind::Help
    } else if arg == "-L"@ || arg == "--label"@ {
        ArgKind::Label
    } else if arg == "-c"@ || arg == "--cluster-size"@ {
        ArgKind::ClusterSize
    } else if arg == "--mft-record-size"@ {
        ArgKind::MftRecordSize
    } else if arg == "--serial"@ {
        ArgKind::Serial
    } else if arg == "-Q"@ || arg == "--quick"@ || arg == "-f"@ || arg == "--fast"@ {
        ArgKind::Quick
    } else if arg == "-F"@ || arg == "--force"@ {
        ArgKind::Force
    } else if arg == "-n"@ {
        ArgKind::DryRun
    } else if arg == "-q"@ || arg == "--quiet"@ {
        ArgKind::Quiet
    } else if arg == "--create-size"@ {
        ArgKind::CreateSize
    } else if arg.len() > 0 && arg[0] == '-' {
        ArgKind::Unknown
    } else {
        ArgKind::Device
    }
}

fn classify(arg: &str) -> (k: ArgKind)
    ensures
        k == kind_of(arg@),
{
    let chars: Vec<char> = chars_of(arg);
    if same_text(arg, "-h") || same_text(arg, "--help") {
        ArgKind::Help
    } else if same_text(arg, "-L") || same_text(arg, "--label") {
        ArgKind::Label
    } else if same_text(arg, "-c") || same_text(arg, "--cluster-size") {
        ArgKind::ClusterSize
    } else if same_text(arg, "--mft-record-size") {
        ArgKind::MftRecordSize
    } else if same_text(arg, "--serial") {
        ArgKind::Serial
    } else if same_text(arg, "-Q") || same_text(arg, "--quick") || same_text(arg, "-f")
        || same_text(arg, "--fast") {
        ArgKind::Quick
    } else if same_text(arg, "-F") || same_text(arg, "--force") {
        ArgKind::Force
    } else if same_text(arg, "-n") {
        ArgKind::DryRun
    } else if same_text(arg, "-q") || same_text(arg, "--quiet") {
        ArgKind::Quiet
    } else if same_text(arg, "--create-size") {
        ArgKind::CreateSize
    } else if chars.len() > 0 && chars[0] == '-' {
        ArgKind::Unknown
    } else {
        ArgKind::Device
    }
}

/// What one argument does to the options, and how many arguments it takes up.
pub enum Taken {
    /// The options after it, and the arguments that it takes up.
    Next(OptsView, int),
    /// Help is asked for.
    Help,
    /// Something is wrong.
    Wrong(Seq<char>),
}

/// What an argument that is followed by `value`, where there is one, does to the
/// options `o`.
pub open spec fn taken(
    o: OptsView,
    arg: Seq<char>,
    value: Option<Seq<char>>,
    usage: Seq<char>,
) -> Taken {
    match kind_of(arg) {
        ArgKind::Help => Taken::Help,
        ArgKind::Label => match value {
            None => Taken::Wrong(arg + " requires a label argument"@),
            Some(v) => Taken::Next(OptsView { label: Some(v), ..o }, 2),
        },
        ArgKind::ClusterSize => match value {
            None => Taken::Wrong(arg + " requires a cluster size argument"@),
            Some(v) => match text::parsed(v, 10, u32::MAX as int) {
                None => Taken::Wrong(arg + ": not a valid number: "@ + v),
                Some(n) => Taken::Next(OptsView { cluster_size: Some(n as u32), ..o }, 2),
            },
        },
        ArgKind::MftRecordSize => match value {
            None => Taken::Wrong("--mft-record-size requires a value"@),
            Some(v) => match text::parsed(v, 10, u32::MAX as int) {
                None => Taken::Wrong("--mft-record-size: not a valid number: "@ + v),
                Some(n) => Taken::Next(OptsView { mft_record_size: Some(n as u32), ..o }, 2),
            },
        },
        ArgKind::Serial => match value {
            None => Taken::Wrong("--serial requires a hex value"@),
            Some(v) => match serial_of(v) {
                Err(m) => Taken::Wrong(m),
                Ok(n) => Taken::Next(OptsView { serial: Some(n as u64), ..o }, 2),
            },
        },
        ArgKind::Quick => Taken::Next(OptsView { quick: true, ..o }, 1),
        ArgKind::Force => Taken::Next(OptsView { force: true, ..o }, 1),
        ArgKind::DryRun => Taken::Next(OptsView { dry_run: true, ..o }, 1),
        ArgKind::Quiet => Taken::Next(OptsView { quiet: true, ..o }, 1),
        ArgKind::CreateSize => match value {
            None => Taken::Wrong("--create-size requires a SIZE argument (e.g. 256M)"@),
            Some(v) => match size_of(v) {
                Err(m) => Taken::Wrong(m),
                Ok(n) => Taken::Next(OptsView { create_size: Some(n as u64), ..o }, 2),
            },
        },
        ArgKind::Unknown => Taken::Wrong("unknown flag: "@ + arg + "\n\n"@ + usage),
        ArgKind::Device => if o.device is Some {
            Taken::Wrong(
                "extra positional argument: "@ + arg + " (only one device may be given)"@,
            )
        } else {
            Taken::Next(OptsView { device: Some(arg), ..o }, 1)
        },
    }
}

/// What the arguments from the `i`th on make of the options: the options, or
/// nothing where help is asked for first.
pub open spec fn parsed_from(
    args: Seq<Seq<char>>,
    i: int,
    o: OptsView,
    usage: Seq<char>,
) -> Result<Option<OptsView>, Seq<char>>
    decreases args.len() - i,
{
    if i < 0 || i >= args.len() {
        Ok(Some(o))
    } else {
        let value = if i + 1 < args.len() {
            Some(args[i + 1])
        } else {
            None
        };
        match taken(o, args[i], value, usage) {
            Taken::Help => Ok(None),
            Taken::Wrong(m) => Err(m),
            Taken::Next(next, n) => parsed_from(
                args,
                i + if n == 2 {
                    2int
                } else {
                    1
                },
                next,
                usage,
            ),
        }
    }
}

enum Took {
    Next(Opts, usize),
    Help,
    Wrong(String),
}

spec fn agrees(got: Took, want: Taken) -> bool {
    match (got, want) {
        (Took::Next(o, n), Taken::Next(w, k)) => o@ == w && n == k && (n == 1 || n == 2),
        (Took::Help, Taken::Help) => true,
        (Took::Wrong(m), Taken::Wrong(w)) => m@ == w,
        _ => false,
    }
}

fn parse_u32(s: &str) -> (n: Option<u32>)
    ensures
        match (n, text::parsed(s@, 10, u32::MAX as int)) {
            (Some(v), Some(w)) => v == w,
            (None, None) => true,
            _ => false,
        },
{
    let chars: Vec<char> = chars_of(s);
    match parse_number(chars.as_slice(), 10, u32::MAX as u64) {
        Some(v) => Some(v as u32),
        None => None,
    }
}

fn take_valued(opts: Opts, kind: ArgKind, arg: &str, value: Option<&str>, Ghost(usage): Ghost<
    Seq<char>,
>) -> (t: Took)
    requires
        kind == kind_of(arg@),
        kind is Label || kind is ClusterSize || kind is MftRecordSize || kind is Serial
            || kind is CreateSize,
    ensures
        agrees(
            t,
            taken(
                opts@,
                arg@,
                match value {
                    Some(v) => Some(v@),
                    None => None,
                },
                usage,
            ),
        ),
{
    let mut o: Opts = opts;
    match kind {
        ArgKind::Label => match value {
            None => Took::Wrong(arg.to_owned().concat(" requires a label argument")),
            Some(v) => {
                o.label = Some(v.to_owned());
                Took::Next(o, 2)
            },
        },
        ArgKind::ClusterSize => match value {
            None => Took::Wrong(arg.to_owned().concat(" requires a cluster size argument")),
            Some(v) => match parse_u32(v) {
                None => Took::Wrong(
                    arg.to_owned().concat(": not a valid number: ").concat(v),
                ),
                Some(n) => {
                    o.cluster_size = Some(n);
                    Took::Next(o, 2)
                },
            },
        },
        ArgKind::MftRecordSize => match value {
            None => Took::Wrong("--mft-record-size requires a value".to_owned()),
            Some(v) => match parse_u32(v) {
                None => Took::Wrong(
                    "--mft-record-size: not a valid number: ".to_owned().concat(v),
                ),
                Some(n) => {
                    o.mft_record_size = Some(n);
                    Took::Next(o, 2)
                },
            },
        },
        ArgKind::Serial => match value {
            None => Took::Wrong("--serial requires a hex value".to_owned()),
            Some(v) => match parse_hex_u64(v) {
                Err(m) => Took::Wrong(m),
                Ok(n) => {
                    o.serial = Some(n);
                    Took::Next(o, 2)
                },
            },
        },
        _ => match value {
            None => Took::Wrong(
                "--create-size requires a SIZE argument (e.g. 256M)".to_owned(),
            ),
            Some(v) => match parse_size(v) {
                Err(m) => Took::Wrong(m),
                Ok(n) => {
                    o.create_size = Some(n);
                    Took::Next(o, 2)
                },
            },
        },
    }
}

fn take(opts: Opts, arg: &str, value: Option<&str>, usage: &str) -> (t: Took)
    ensures
        agrees(
            t,
            taken(
                opts@,
                arg@,
                match value {
                    Some(v) => Some(v@),
                    None => None,
                },
                usage@,
            ),
        ),
{
    let kind: ArgKind = classify(arg);
    let mut o: Opts = opts;
    match kind {
        ArgKind::Help => Took::Help,
        ArgKind::Quick => {
            o.quick = true;
            Took::Next(o, 1)
        },
        ArgKind::Force => {
            o.force = true;
            Took::Next(o, 1)
        },
        ArgKind::DryRun => {
            o.dry_run = true;
            Took::Next(o, 1)
        },
        ArgKind::Quiet => {
            o.quiet = true;
            Took::Next(o, 1)
        },
        ArgKind::Unknown => Took::Wrong(
            "unknown flag: ".to_owned().concat(arg).concat("\n\n").concat(usage),
        ),
        ArgKind::Device => {
            if o.device.is_some() {
                Took::Wrong(
                    "extra positional argument: ".to_owned().concat(arg).concat(
                        " (only one device may be given)",
                    ),
                )
            } else {
                o.device = Some(arg.to_owned());
                Took::Next(o, 1)
            }
        },
        _ => take_valued(o, kind, arg, value, Ghost(usage@)),
    }
}

/// Reads the arguments: the options, or `None` where help is asked for.
pub fn parse_args(args: &[String], usage: &str) -> (res: Result<Option<Opts>, String>)
    ensures
        match (res, parsed_from(text::texts(args@), 0, no_options(), usage@)) {
            (Ok(Some(o)), Ok(Some(w))) => o@ == w,
            (Ok(None), Ok(None)) => true,
            (Err(m), Err(w)) => m@ == w,
            _ => false,
        },
{
    let ghost list = text::texts(args@);
    let total: usize = args.len();
    let mut opts = Opts {
        label: None,
        cluster_size: None,
        mft_record_size: None,
        serial: None,
        force: false,
        quick: false,
        dry_run: false,
        quiet: false,
        create_size: None,
        device: None,
    };
    let mut i: usize = 0;
    while i < total
        invariant
            list == text::texts(args@),
            total == args@.len(),
            i <= total,
            parsed_from(list, i as int, opts@, usage@) == parsed_from(
                list,
                0,
                no_options(),
                usage@,
            ),
        decreases total - i,
    {
        assert(list[i as int] == args@[i as int]@);
        let value: Option<&str> = if i + 1 < total {
            assert(list[i + 1] == args@[i + 1]@);
            Some(args[i + 1].as_str())
        } else {
            None
        };
        match take(opts, args[i].as_str(), value, usage) {
            Took::Help => {
                return Ok(None);
            },
            Took::Wrong(m) => {
                return Err(m);
            },
            Took::Next(next, n) => {
                opts = next;
                assert(n == 2 ==> i + 1 < total);
                i = i + n;
            },
        }
    }
    Ok(Some(opts))
}

/// The size of a cluster, or of a file record, where none is asked for.
pub const DEFAULT_SIZE: u32 = 4096;

/// What is to be formatted, and how.
pub struct FormatPlan {
    pub device: String,
    pub cluster_size: u32,
    pub mft_record_size: u32,
}

/// What the options ask to be formatted.
pub fn format_plan(opts: &Opts, usage: &str) -> (res: Result<FormatPlan, String>)
    ensures
        match res {
            Ok(p) => {
                &&& opts@.device == Some(p.device@)
                &&& p.cluster_size == match opts.cluster_size {
                    Some(n) => n,
                    None => DEFAULT_SIZE,
                }
                &&& p.mft_record_size == match opts.mft_record_size {
                    Some(n) => n,
                    None => DEFAULT_SIZE,
                }
            },
            Err(m) => opts.device is None && m@ == "missing positional <device> argument\n\n"@
                + usage@,
        },
{
    let device: String = match &opts.device {
        Some(d) => d.clone(),
        None => {
            return Err("missing positional <device> argument\n\n".to_owned().concat(usage));
        },
    };
    let cluster_size: u32 = match opts.cluster_size {
        Some(n) => n,
        None => DEFAULT_SIZE,
    };
    let mft_record_size: u32 = match opts.mft_record_size {
        Some(n) => n,
        None => DEFAULT_SIZE,
    };
    Ok(FormatPlan { device, cluster_size, mft_record_size })
}

/// What is there under the name of a file that is to be created.
pub struct ExistingTarget {
    /// A block or character device.
    pub is_device: bool,
    /// A regular file.
    pub is_file: bool,
    pub length: u64,
}

/// What is to be said where a file that is to be created is there already: it is
/// left as it is. What is not a regular file is refused.
pub fn existing_target(device: &str, target: &ExistingTarget) -> (res: Result<String, String>)
    ensures
        match res {
            Ok(m) => !target.is_device && target.is_file && m@
                == "rust-ntfs format: --create-size: "@ + device@ + " already exists ("@
                + text::dec(target.length as nat) + " bytes); leaving as-is"@,
            Err(m) => if target.is_device {
                m@ == "--create-size refuses to apply to "@ + device@
                    + ": looks like a real block/char device, not a regular file."@
            } else {
                !target.is_file && m@ == "--create-size: "@ + device@
                    + " exists but is not a regular file"@
            },
        },
{
    if target.is_device {
        return Err(
            "--create-size refuses to apply to ".to_owned().concat(device).concat(
                ": looks like a real block/char device, not a regular file.",
            ),
        );
    }
    if !target.is_file {
        return Err(
            "--create-size: ".to_owned().concat(device).concat(
                " exists but is not a regular file",
            ),
        );
    }
    Ok(
        "rust-ntfs format: --create-size: ".to_owned().concat(device).concat(
            " already exists (",
        ).concat(decimal(target.length).as_str()).concat(" bytes); leaving as-is"),
    )
}

/// What is said before a device is formatted.
pub open spec fn announcement(p: FormatPlan, size: u64, quick: bool, dry_run: bool) -> Seq<char> {
    "rust-ntfs format: formatting "@ + p.device@ + " ("@ + text::dec(size as nat)
        + " bytes, cluster_size="@ + text::dec(p.cluster_size as nat) + ", mft_record_size="@
        + text::dec(p.mft_record_size as nat) + (if quick {
        ", quick"@
    } else {
        ""@
    }) + (if dry_run {
        ", dry-run"@
    } else {
        ""@
    }) + ")"@
}

/// What is said before a device of `size` bytes is formatted. One of no bytes is
/// refused.
pub fn announce_format(plan: &FormatPlan, size: u64, opts: &Opts) -> (res: Result<String, String>)
    ensures
        match res {
            Ok(m) => size != 0 && m@ == announcement(*plan, size, opts.quick, opts.dry_run),
            Err(m) => size == 0 && m@ == "device "@ + plan.device@
                + " reports size 0 — pre-create with truncate / fsutil first"@,
        },
{
    if size == 0 {
        return Err(
            "device ".to_owned().concat(plan.device.as_str()).concat(
                " reports size 0 — pre-create with truncate / fsutil first",
            ),
        );
    }
    let quick: &str = if opts.quick {
        ", quick"
    } else {
        ""
    };
    let dry_run: &str = if opts.dry_run {
        ", dry-run"
    } else {
        ""
    };
    Ok(
        "rust-ntfs format: formatting ".to_owned().concat(plan.device.as_str()).concat(
            " (",
        ).concat(decimal(size).as_str()).concat(" bytes, cluster_size=").concat(
            decimal(plan.cluster_size as u64).as_str(),
        ).concat(", mft_record_size=").concat(decimal(plan.mft_record_size as u64).as_str()).concat(
            quick,
        ).concat(dry_run).concat(")"),
    )
}

} // verus!
