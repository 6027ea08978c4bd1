//! What the commands of the program have in common: help, exit codes, and the
//! rule that what looks like a flag is not a path.

use vstd::prelude::*;

use crate::text;
use crate::text::{chars_of, decimal, quoted, same_text};

verus! {

/// What went wrong, which decides the exit code.
pub enum CliError {
    /// The command was not one.
    Usage(String),
    /// The command was understood and could not be carried out.
    Failed(String),
}

impl From<String> for CliError {
    /// What is not said to be otherwise is a failure.
    fn from(msg: String) -> (e: Self) {
        CliError::Failed(msg)
    }
}

impl vstd::std_specs::convert::FromSpecImpl<String> for CliError {
    open spec fn obeys_from_spec() -> bool {
        true
    }

    open spec fn from_spec(msg: String) -> Self {
        CliError::Failed(msg)
    }
}

/// The exit code for a command that was not one.
pub const USAGE_EXIT: u8 = 2;

/// The exit code for a command that failed.
pub const FAILURE_EXIT: u8 = 1;

/// The exit code for the result of a command.
pub fn exit_code(result: &Result<(), CliError>) -> (code: u8)
    ensures
        code == match *result {
            Ok(_) => 0,
            Err(CliError::Usage(_)) => USAGE_EXIT,
            Err(CliError::Failed(_)) => FAILURE_EXIT,
        },
{
    match result {
        Ok(_) => 0,
        Err(CliError::Usage(_)) => USAGE_EXIT,
        Err(CliError::Failed(_)) => FAILURE_EXIT,
    }
}

/// A request for help.
pub open spec fn is_help(arg: Seq<char>) -> bool {
    arg == "-h"@ || arg == "--help"@
}

/// Whether help is asked for.
pub fn wants_help(args: &[String]) -> (yes: bool)
    ensures
        yes == exists|i: int| 0 <= i < args@.len() && is_help(#[trigger] args@[i]@),
{
    let mut i: usize = 0;
    while i < args.len()
        invariant
            i <= args@.len(),
            forall|k: int| 0 <= k < i ==> !is_help(#[trigger] args@[k]@),
        decreases args.len() - i,
    {
        let arg: &str = args[i].as_str();
        if same_text(arg, "-h") || same_text(arg, "--help") {
            assert(is_help(args@[i as int]@));
            return true;
        }
        i = i + 1;
    }
    false
}

/// The argument at `at`, which is called `name`.
pub fn next_arg(args: &[String], at: usize, name: &str) -> (res: Result<String, String>)
    ensures
        match res {
            Ok(a) => at < args@.len() && a@ == args@[at as int]@,
            Err(m) => at >= args@.len() && m@ == "missing <"@ + name@ + ">"@,
        },
{
    if at < args.len() {
        Ok(args[at].clone())
    } else {
        Err("missing <".to_owned().concat(name).concat(">"))
    }
}

/// The argument at `at` of the command `sub`, which is called `name`.
pub fn next_pos(args: &[String], at: usize, sub: &str, name: &str) -> (res: Result<String, String>)
    ensures
        match res {
            Ok(a) => at < args@.len() && a@ == args@[at as int]@,
            Err(m) => at >= args@.len() && m@ == sub@ + ": missing <"@ + name@ + "> argument"@,
        },
{
    if at < args.len() {
        Ok(args[at].clone())
    } else {
        Err(sub.to_owned().concat(": missing <").concat(name).concat("> argument"))
    }
}

/// What looks like a flag: a dash and something behind it.
pub open spec fn looks_like_flag(arg: Seq<char>) -> bool {
    arg.len() > 1 && arg[0] == '-'
}

/// The first argument, from the `i`th on, that ends the flags.
pub open spec fn separator_from(args: Seq<Seq<char>>, i: int) -> Option<int>
    decreases args.len() - i,
{
    if i < 0 || i >= args.len() {
        None
    } else if args[i] == "--"@ {
        Some(i)
    } else {
        separator_from(args, i + 1)
    }
}

/// The first of the arguments from the `i`th to the `end`th that looks like a
/// flag.
pub open spec fn flag_from(args: Seq<Seq<char>>, i: int, end: int) -> Option<int>
    decreases end - i,
{
    if i < 0 || i >= end {
        None
    } else if looks_like_flag(args[i]) {
        Some(i)
    } else {
        flag_from(args, i + 1, end)
    }
}

/// The number of arguments before the separator, or of all.
pub open spec fn scanned(args: Seq<Seq<char>>) -> int {
    match separator_from(args, 0) {
        Some(i) => i,
        None => args.len() as int,
    }
}

/// The arguments without the separator.
pub open spec fn positional(args: Seq<Seq<char>>) -> Seq<Seq<char>> {
    match separator_from(args, 0) {
        Some(i) => args.take(i) + args.skip(i + 1),
        None => args,
    }
}

/// What is said of an argument that looks like a flag, given it in quotes.
pub open spec fn unknown_flag_text(flag: Seq<char>, expected: int, usage: Seq<char>) -> Seq<char> {
    "unknown flag "@ + flag + "; this verb takes "@ + text::dec(expected as nat)
        + " argument(s) and no flags. If that is a filename, put it after `--`.\n\n"@ + usage
}

/// What is said of an argument that looks like a flag, given it in quotes.
pub fn unknown_flag(flag: &str, expected: usize, usage: &str) -> (m: String)
    ensures
        m@ == unknown_flag_text(flag@, expected as int, usage@),
{
    "unknown flag ".to_owned().concat(flag).concat("; this verb takes ").concat(
        decimal(expected as u64).as_str(),
    ).concat(
        " argument(s) and no flags. If that is a filename, put it after `--`.\n\n",
    ).concat(usage)
}

fn find_separator(args: &[String]) -> (r: Option<usize>)
    ensures
        match (r, separator_from(text::texts(args@), 0)) {
            (Some(i), Some(w)) => i == w && i < args@.len(),
            (None, None) => true,
            _ => false,
        },
{
    let ghost list = text::texts(args@);
    let mut i: usize = 0;
    while i < args.len()
        invariant
            list == text::texts(args@),
            i <= args@.len(),
            separator_from(list, i as int) == separator_from(list, 0),
        decreases args.len() - i,
    {
        assert(list[i as int] == args@[i as int]@);
        if same_text(args[i].as_str(), "--") {
            return Some(i);
        }
        i = i + 1;
    }
    None
}

fn find_flag(args: &[String], end: usize) -> (r: Option<usize>)
    requires
        end <= args.len(),
    ensures
        match (r, flag_from(text::texts(args@), 0, end as int)) {
            (Some(i), Some(w)) => i == w && i < end,
            (None, None) => true,
            _ => false,
        },
{
    let ghost list = text::texts(args@);
    let mut i: usize = 0;
    while i < end
        invariant
            list == text::texts(args@),
            i <= end <= args@.len(),
            flag_from(list, i as int, end as int) == flag_from(list, 0, end as int),
        decreases end - i,
    {
        assert(list[i as int] == args@[i as int]@);
        let chars: Vec<char> = chars_of(args[i].as_str());
        if chars.len() > 1 && chars[0] == '-' {
            return Some(i);
        }
        i = i + 1;
    }
    None
}

/// The positional arguments of a command that has no flags. What looks like a
/// flag is refused, unless it stands behind `--`.
pub fn positionals(args: &[String], expected: usize, usage: &str) -> (res: Result<
    Vec<String>,
    CliError,
>)
    ensures
        ({
            let list = text::texts(args@);
            match flag_from(list, 0, scanned(list)) {
                Some(i) => res matches Err(CliError::Usage(m)) && m@ == unknown_flag_text(
                    text::debug_text(list[i]),
                    expected as int,
                    usage@,
                ),
                None => if positional(list).len() != expected {
                    res matches Err(CliError::Usage(m)) && m@ == "expected exactly "@ + text::dec(
                        expected as nat,
                    ) + " arguments, got "@ + text::dec(positional(list).len()) + "\n\n"@ + usage@
                } else {
                    res matches Ok(v) && text::texts(v@) == positional(list)
                },
            }
        }),
{
    let ghost list = text::texts(args@);
    let total: usize = args.len();
    let separator: Option<usize> = find_separator(args);
    let end: usize = match separator {
        Some(i) => i,
        None => total,
    };
    match find_flag(args, end) {
        Some(i) => {
            assert(list[i as int] == args@[i as int]@);
            let flag: String = quoted(args[i].as_str());
            return Err(CliError::Usage(unknown_flag(flag.as_str(), expected, usage)));
        },
        None => {},
    }
    let mut out: Vec<String> = Vec::new();
    let mut i: usize = 0;
    while i < end
        invariant
            list == text::texts(args@),
            i <= end <= args@.len(),
            text::texts(out@) == list.take(i as int),
        decreases end - i,
    {
        let ghost had = text::texts(out@);
        out.push(args[i].clone());
        proof {
            assert(text::texts(out@) =~= had.push(list[i as int]));
            assert(list.take(i + 1) =~= list.take(i as int).push(list[i as int]));
        }
        i = i + 1;
    }
    if end < total {
        let mut k: usize = end + 1;
        proof {
            assert(list.take(end as int) + list.subrange(end + 1, k as int) =~= list.take(
                end as int,
            ));
        }
        while k < total
            invariant
                list == text::texts(args@),
                total == args@.len(),
                end < k <= total,
                text::texts(out@) == list.take(end as int) + list.subrange(end + 1, k as int),
            decreases total - k,
        {
            let ghost had = text::texts(out@);
            out.push(args[k].clone());
            proof {
                assert(text::texts(out@) =~= had.push(list[k as int]));
                assert(list.take(end as int) + list.subrange(end + 1, k + 1) =~= had.push(
                    list[k as int],
                ));
            }
            k = k + 1;
        }
        proof {
            assert(list.subrange(end + 1, total as int) =~= list.skip(end + 1));
        }
    } else {
        proof {
            assert(list.take(total as int) =~= list);
            assert(separator is Some ==> end < total);
        }
    }
    proof {
        assert(text::texts(out@) =~= positional(list));
        assert(out@.len() == text::texts(out@).len());
    }
    if out.len() != expected {
        return Err(
            CliError::Usage(
                "expected exactly ".to_owned().concat(decimal(expected as u64).as_str()).concat(
                    " arguments, got ",
                ).concat(decimal(out.len() as u64).as_str()).concat("\n\n").concat(usage),
            ),
        );
    }
    Ok(out)
}

/// Where the arguments are taken, none that looks like a flag is among them but
/// behind the separator.
pub proof fn lemma_flags_are_not_paths(args: Seq<Seq<char>>, i: int)
    requires
        flag_from(args, 0, scanned(args)) is None,
        0 <= i < scanned(args),
    ensures
        !looks_like_flag(args[i]),
{
    lemma_no_flag_from(args, 0, scanned(args), i);
}

proof fn lemma_no_flag_from(args: Seq<Seq<char>>, from: int, end: int, i: int)
    requires
        flag_from(args, from, end) is None,
        0 <= from <= i < end,
    ensures
        !looks_like_flag(args[i]),
    decreases end - from,
{
    if from < i {
        lemma_no_flag_from(args, from + 1, end, i);
    }
}

} // verus!
