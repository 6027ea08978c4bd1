//! Reparse points: what a link points at, and what a tag makes of a file.
//!
//! The value of a reparse point is a tag of 32 bits, a length of 16 bits, 16 bits
//! that mean nothing, and as many bytes of data as the length says. That of a link
//! begins with the offsets and lengths of two names. The second, the print name,
//! is the one to show.

use vstd::prelude::*;

use crate::attr_io;
use crate::attr_io::read_units;
use crate::bytes;
use crate::bytes::{copy_range, get_u16, get_u32};
use crate::text;
use crate::text::{chars_of, decimal, hexadecimal};
use crate::utf16;
use crate::utf16::from_utf16;

verus! {

/// The tag of a symbolic link.
pub const REPARSE_TAG_SYMLINK: u32 = 0xA000_000C;

/// The tag of a mount point, also called a junction.
pub const REPARSE_TAG_MOUNT_POINT: u32 = 0xA000_0003;

/// The tag of a file whose data is kept compressed in another stream.
pub const REPARSE_TAG_WOF: u32 = 0x8000_0017;

/// The string whose UTF-16 units the bytes are, where there is at least one and
/// they are valid.
pub open spec fn string_in(b: Seq<u8>) -> Option<Seq<char>> {
    if b.len() % 2 != 0 || b.len() == 0 {
        None
    } else {
        utf16::decoded(attr_io::units_at(b, 0, b.len() as int / 2))
    }
}

/// The string whose UTF-16 units the bytes are, least significant byte first.
/// `None` where there are none, or not a whole number, or they are not valid.
pub fn utf16_le_bytes_to_string(bytes: &[u8]) -> (s: Option<String>)
    ensures
        match (s, string_in(bytes@)) {
            (Some(v), Some(w)) => v@ == w,
            (None, None) => true,
            _ => false,
        },
{
    if bytes.len() % 2 != 0 || bytes.len() == 0 {
        return None;
    }
    let units: Vec<u16> = read_units(bytes, 0, bytes.len() / 2);
    from_utf16(units.as_slice())
}

/// The print name of a link whose names begin behind `header` bytes.
pub open spec fn print_name(data: Seq<u8>, header: int) -> Option<Seq<char>> {
    let start = header + bytes::le16(data, 4);
    let end = start + bytes::le16(data, 6);
    if data.len() < header || end > data.len() {
        None
    } else {
        string_in(data.subrange(start, end))
    }
}

fn decode_print_name(data: &[u8], header: usize) -> (s: Option<String>)
    requires
        8 <= header <= 12,
    ensures
        match (s, print_name(data@, header as int)) {
            (Some(v), Some(w)) => v@ == w,
            (None, None) => true,
            _ => false,
        },
{
    if data.len() < header {
        return None;
    }
    let start: usize = header + get_u16(data, 4) as usize;
    let end: usize = start + get_u16(data, 6) as usize;
    if end > data.len() {
        return None;
    }
    utf16_le_bytes_to_string(&data[start..end])
}

/// The print name in the data of a symbolic link.
pub fn decode_symlink_print_name(data: &[u8]) -> (s: Option<String>)
    ensures
        match (s, print_name(data@, 12)) {
            (Some(v), Some(w)) => v@ == w,
            (None, None) => true,
            _ => false,
        },
{
    decode_print_name(data, 12)
}

/// The print name in the data of a mount point, which has no flags before the
/// names.
pub fn decode_mount_point_print_name(data: &[u8]) -> (s: Option<String>)
    ensures
        match (s, print_name(data@, 8)) {
            (Some(v), Some(w)) => v@ == w,
            (None, None) => true,
            _ => false,
        },
{
    decode_print_name(data, 8)
}

/// A tag in ten characters: `0x` and eight hexadecimal digits.
pub open spec fn tag_text(tag: u32) -> Seq<char> {
    "0x"@ + zeros(8 - text::hex(tag as nat).len()) + text::hex(tag as nat)
}

/// As many zeros.
pub open spec fn zeros(n: int) -> Seq<char>
    decreases n,
{
    if n <= 0 {
        ""@
    } else {
        zeros(n - 1) + "0"@
    }
}

fn zeros_text(n: usize) -> (s: String)
    ensures
        s@ == zeros(n as int),
{
    let mut s: String = "".to_owned();
    let mut i: usize = 0;
    while i < n
        invariant
            i <= n,
            s@ == zeros(i as int),
        decreases n - i,
    {
        s.append("0");
        i = i + 1;
    }
    s
}

fn tag_to_text(tag: u32) -> (s: String)
    ensures
        s@ == tag_text(tag),
{
    let digits: String = hexadecimal(tag as u64);
    let n: usize = digits.as_str().unicode_len();
    if n < 8 {
        "0x".to_owned().concat(zeros_text(8 - n).as_str()).concat(digits.as_str())
    } else {
        assert(zeros(8 - n as int) =~= ""@);
        "0x".to_owned().concat("").concat(digits.as_str())
    }
}

/// A path without the prefix that stands for the object manager's root.
pub open spec fn without_nt_prefix(s: Seq<char>) -> Seq<char> {
    if text::stands_at(s, "\\??\\"@, 0) {
        s.skip("\\??\\"@.len() as int)
    } else {
        s
    }
}

/// The tag and the data in the value of a reparse point.
pub open spec fn parts(value: Seq<u8>) -> Result<(int, Seq<u8>), Seq<char>> {
    let length = bytes::le16(value, 4);
    if value.len() < 8 {
        Err("reparse data too short"@)
    } else if 8 + length > value.len() {
        Err("reparse data_length runs past attribute value"@)
    } else {
        Ok((bytes::le32(value, 0), value.subrange(8, 8 + length)))
    }
}

/// The tag and the data in the value of a reparse point.
pub fn reparse_parts(value: &[u8]) -> (res: Result<(u32, Vec<u8>), String>)
    ensures
        match (res, parts(value@)) {
            (Ok((t, d)), Ok((wt, wd))) => t == wt && d@ == wd,
            (Err(m), Err(w)) => m@ == w,
            _ => false,
        },
{
    if value.len() < 8 {
        return Err("reparse data too short".to_owned());
    }
    let tag: u32 = get_u32(value, 0);
    let length: usize = get_u16(value, 4) as usize;
    if value.len() - 8 < length {
        return Err("reparse data_length runs past attribute value".to_owned());
    }
    Ok((tag, copy_range(value, 8, 8 + length)))
}

/// What the value of a reparse point says that the link points at.
pub open spec fn link_target(value: Seq<u8>) -> Result<Seq<char>, Seq<char>> {
    match parts(value) {
        Err(m) => Err(m),
        Ok((tag, data)) => if tag != REPARSE_TAG_SYMLINK && tag != REPARSE_TAG_MOUNT_POINT {
            Err("unsupported reparse tag "@ + tag_text(tag as u32))
        } else {
            match print_name(
                data,
                if tag == REPARSE_TAG_SYMLINK {
                    12
                } else {
                    8
                },
            ) {
                None => Err("reparse print name is empty"@),
                Some(s) => Ok(without_nt_prefix(s)),
            }
        },
    }
}

fn strip_nt_prefix(target: &str) -> (s: String)
    ensures
        s@ == without_nt_prefix(target@),
{
    let chars: Vec<char> = chars_of(target);
    let prefix: Vec<char> = chars_of("\\??\\");
    if text::matches_at(chars.as_slice(), prefix.as_slice(), 0) {
        let rest: &str = target.substring_char(prefix.len(), chars.len());
        assert(rest@ =~= target@.skip(prefix@.len() as int));
        rest.to_owned()
    } else {
        target.to_owned()
    }
}

/// What the value of a reparse point says that the link points at.
pub fn decode_link_target(value: &[u8]) -> (res: Result<String, String>)
    ensures
        match (res, link_target(value@)) {
            (Ok(v), Ok(w)) => v@ == w,
            (Err(m), Err(w)) => m@ == w,
            _ => false,
        },
{
    let (tag, data) = match reparse_parts(value) {
        Ok((tag, data)) => (tag, data),
        Err(m) => {
            return Err(m);
        },
    };
    let target: Option<String> = if tag == REPARSE_TAG_SYMLINK {
        decode_symlink_print_name(data.as_slice())
    } else if tag == REPARSE_TAG_MOUNT_POINT {
        decode_mount_point_print_name(data.as_slice())
    } else {
        return Err("unsupported reparse tag ".to_owned().concat(tag_to_text(tag).as_str()));
    };
    match target {
        None => Err("reparse print name is empty".to_owned()),
        Some(t) => Ok(strip_nt_prefix(t.as_str())),
    }
}

/// The bytes of a link's target, where they and a zero behind them fit a buffer
/// of `bufsize`.
pub open spec fn target_for_buffer(
    target: Result<Seq<char>, Seq<char>>,
    bufsize: int,
) -> Result<Seq<u8>, Seq<char>> {
    match target {
        Err(m) => Err(m),
        Ok(t) => {
            let b = vstd::utf8::encode_utf8(t);
            if b.len() + 1 > bufsize {
                Err(
                    "readlink: buffer too small (need "@ + text::dec(b.len() + 1) + ", have "@
                        + text::dec(bufsize as nat) + ")"@,
                )
            } else {
                Ok(b)
            }
        },
    }
}

/// The bytes to answer a request for a link's target with, given the value of
/// the file's reparse point and the size of the caller's buffer, which takes a
/// zero behind them.
pub fn readlink_bytes(value: Option<Vec<u8>>, bufsize: usize) -> (res: Result<Vec<u8>, String>)
    ensures
        match value {
            None => res matches Err(m) && m@ == "not a reparse point"@,
            Some(v) => match (res, target_for_buffer(link_target(v@), bufsize as int)) {
                (Ok(b), Ok(w)) => b@ == w,
                (Err(m), Err(w)) => m@ == w,
                _ => false,
            },
        },
{
    let value: Vec<u8> = match value {
        Some(v) => v,
        None => {
            return Err("not a reparse point".to_owned());
        },
    };
    let target: String = match decode_link_target(value.as_slice()) {
        Ok(t) => t,
        Err(m) => {
            return Err(m);
        },
    };
    let b: Vec<u8> = target.as_str().as_bytes_vec();
    let n: usize = b.len();
    if n >= bufsize {
        return Err(
            "readlink: buffer too small (need ".to_owned().concat(
                text::decimal_wide(n as u128 + 1).as_str(),
            ).concat(", have ").concat(decimal(bufsize as u64).as_str()).concat(")"),
        );
    }
    Ok(b)
}

} // verus!
