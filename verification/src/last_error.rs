//! The last error, and the number that callers without strings go by.

use vstd::prelude::*;

use crate::text;
use crate::text::{chars_of, has_part};

verus! {

pub const EPERM: i32 = 1;

pub const ENOENT: i32 = 2;

pub const EIO: i32 = 5;

pub const EEXIST: i32 = 17;

pub const ENOTDIR: i32 = 20;

pub const EISDIR: i32 = 21;

pub const EINVAL: i32 = 22;

pub const ENOSPC: i32 = 28;

pub const ENOTEMPTY: i32 = 66;

/// The number that stands for an error message, by the words that it has. The
/// first line that applies decides; an input/output error is what is left.
pub open spec fn errno_of(m: Seq<char>) -> i32 {
    if text::contains(m, "not found"@) || text::contains(m, "nonexistent"@) || text::contains(
        m,
        "ENOENT"@,
    ) || text::contains(m, "not mapped"@) {
        ENOENT
    } else if text::contains(m, "already exists"@) || text::contains(m, "EEXIST"@) {
        EEXIST
    } else if text::contains(m, "no room"@) || text::contains(m, "full"@) || text::contains(
        m,
        "out of space"@,
    ) || text::contains(m, "exceeds record capacity"@) {
        ENOSPC
    } else if text::contains(m, "invalid"@) || text::contains(m, "null or non-UTF-8"@)
        || text::contains(m, "null "@) {
        EINVAL
    } else if text::contains(m, "not a directory"@) {
        ENOTDIR
    } else if text::contains(m, "is a directory"@) {
        EISDIR
    } else if text::contains(m, "not empty"@) {
        ENOTEMPTY
    } else if text::contains(m, "refuse"@) || text::contains(m, "permission"@) {
        EPERM
    } else {
        EIO
    }
}

/// The number that stands for an error message.
pub fn infer_errno_from_message(msg: &str) -> (n: i32)
    ensures
        n == errno_of(msg@),
{
    let chars: Vec<char> = chars_of(msg);
    let m: &[char] = chars.as_slice();
    if has_part(m, "not found") || has_part(m, "nonexistent") || has_part(m, "ENOENT") || has_part(
        m,
        "not mapped",
    ) {
        ENOENT
    } else if has_part(m, "already exists") || has_part(m, "EEXIST") {
        EEXIST
    } else if has_part(m, "no room") || has_part(m, "full") || has_part(m, "out of space")
        || has_part(m, "exceeds record capacity") {
        ENOSPC
    } else if has_part(m, "invalid") || has_part(m, "null or non-UTF-8") || has_part(m, "null ") {
        EINVAL
    } else if has_part(m, "not a directory") {
        ENOTDIR
    } else if has_part(m, "is a directory") {
        EISDIR
    } else if has_part(m, "not empty") {
        ENOTEMPTY
    } else if has_part(m, "refuse") || has_part(m, "permission") {
        EPERM
    } else {
        EIO
    }
}

/// What is remembered of the last error: nothing, or a message and its number.
pub struct LastError {
    pub message: String,
    pub errno: i32,
}

/// The message as a caller without lengths can have it: one with a zero in it is
/// not.
pub open spec fn recorded(m: Seq<char>) -> Seq<char> {
    if m.contains('\0') {
        "unknown"@
    } else {
        m
    }
}

impl LastError {
    /// No error.
    pub fn new() -> (e: Self)
        ensures
            e.message@ == ""@,
            e.errno == 0,
    {
        LastError { message: "".to_owned(), errno: 0 }
    }
}

fn has_zero(chars: &[char]) -> (b: bool)
    ensures
        b == chars@.contains('\0'),
{
    let mut i: usize = 0;
    while i < chars.len()
        invariant
            i <= chars@.len(),
            forall|k: int| 0 <= k < i ==> #[trigger] chars@[k] != '\0',
        decreases chars.len() - i,
    {
        if chars[i] == '\0' {
            assert(chars@[i as int] == '\0');
            return true;
        }
        i = i + 1;
    }
    false
}

/// Records an error. The number goes by the message as it was given.
pub fn set_error(last: &mut LastError, msg: &str)
    ensures
        final(last).message@ == recorded(msg@),
        final(last).errno == errno_of(msg@),
{
    let chars: Vec<char> = chars_of(msg);
    last.errno = infer_errno_from_message(msg);
    if has_zero(chars.as_slice()) {
        last.message = "unknown".to_owned();
    } else {
        last.message = msg.to_owned();
    }
}

/// Forgets the last error.
pub fn clear_last_error(last: &mut LastError)
    ensures
        final(last).message@ == ""@,
        final(last).errno == 0,
{
    last.message = "".to_owned();
    last.errno = 0;
}

/// Records an error and gives what a caller gets for it.
pub fn err_int(last: &mut LastError, e: &str) -> (r: i32)
    ensures
        r == -1,
        final(last).message@ == recorded(e@),
        final(last).errno == errno_of(e@),
{
    set_error(last, e);
    -1
}

/// Records an error and gives what a caller gets for it.
pub fn err_i64(last: &mut LastError, e: &str) -> (r: i64)
    ensures
        r == -1,
        final(last).message@ == recorded(e@),
        final(last).errno == errno_of(e@),
{
    set_error(last, e);
    -1
}

/// An error always has a number, and none has zero.
pub proof fn lemma_errno_is_not_zero(m: Seq<char>)
    ensures
        errno_of(m) > 0,
{
}

} // verus!
