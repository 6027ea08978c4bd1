//! What callers and tools are told of files, directories and volumes.

use vstd::prelude::*;

use crate::cli;
use crate::data_source;
use crate::data_source::{DataView, SourceView};
use crate::dir;
use crate::dir::FsNtfsDirent;
use crate::facade;
use crate::facade::{Attr, DirEntry, FileType, ListedEntry, RecordStat};
use crate::format_args;
use crate::format_args::OptsView;
use crate::last_error;
use crate::listing;
use crate::listing::LsView;
use crate::paths;
use crate::replies;
use crate::replies::{MountKind, ObjectIds};
use crate::stat;
use crate::stat::{FsNtfsAttr, SeenAttribute};
use crate::text;

verus! {

/// The seconds since 1970 and the nanoseconds are the time that is so many ticks
/// of 100 nanoseconds after the start of 1601.
pub open spec fn is_time(seconds: int, nanoseconds: int, ticks: int) -> bool {
    &&& 0 <= nanoseconds < 1_000_000_000
    &&& (seconds + 11_644_473_600) * 1_000_000_000 + nanoseconds == ticks * 100
}

/// What a file's attributes say of it: each of its four times, its flags, the
/// length of its data, which is that of the stream without a name, and by the tag
/// of its reparse point whether it is a link. Nothing else changes.
pub proof fn lemma_what_an_attribute_says(
    a: FsNtfsAttr,
    creation: u64,
    modification: u64,
    access: u64,
    record_modification: u64,
    attributes: u32,
    length: u64,
)
    ensures
        ({
            let b = stat::noted(
                a,
                SeenAttribute::StandardInformation {
                    creation,
                    modification,
                    access,
                    record_modification,
                    attributes,
                },
            );
            &&& is_time(b.crtime_sec as int, b.crtime_nsec as int, creation as int)
            &&& is_time(b.mtime_sec as int, b.mtime_nsec as int, modification as int)
            &&& is_time(b.atime_sec as int, b.atime_nsec as int, access as int)
            &&& is_time(b.ctime_sec as int, b.ctime_nsec as int, record_modification as int)
            &&& b.attributes == attributes
            &&& b.size == a.size && b.mode == a.mode && b.link_count == a.link_count
            &&& b.file_type == a.file_type && b.file_record_number == a.file_record_number
        }),
        stat::noted(a, SeenAttribute::Data { unnamed: true, length }) == (FsNtfsAttr {
            size: length,
            ..a
        }),
        stat::noted(a, SeenAttribute::Data { unnamed: false, length }) == a,
        stat::noted(a, SeenAttribute::Other) == a,
{
}

/// A symbolic link has type 7 and the mode of one, and a junction type 8 with the
/// mode that it had; any other reparse point leaves a directory as it is.
pub proof fn lemma_what_a_tag_says(a: FsNtfsAttr, tag: Option<u32>)
    ensures
        ({
            let b = stat::noted(a, SeenAttribute::ReparsePoint { tag });
            &&& tag == Some(0xA000_000Cu32) ==> b.file_type == 7 && b.mode == 0o120777
            &&& tag == Some(0xA000_0003u32) ==> b.file_type == 8
            &&& tag == Some(0xA000_0003u32) && a.file_type == 2 ==> b.mode == a.mode
            &&& tag != Some(0xA000_000Cu32) && tag != Some(0xA000_0003u32) ==> b.file_type == if a.file_type
                == 2 {
                2u32
            } else {
                1u32
            }
            &&& a.file_type != 2 && tag != Some(0xA000_000Cu32) ==> b.mode == 0o100644
            &&& b == (FsNtfsAttr { file_type: b.file_type, mode: b.mode, ..a })
        }),
{
}

/// Before its attributes are looked at, a file is empty, of no time, and of the
/// type and mode of a directory or of a file.
pub proof fn lemma_before_attributes(record: u64, links: u16, is_directory: bool)
    ensures
        ({
            let a = stat::blank(record, links, is_directory);
            &&& a.file_record_number == record
            &&& a.link_count == links
            &&& a.size == 0 && a.attributes == 0
            &&& a.file_type == if is_directory {
                2u32
            } else {
                1u32
            }
            &&& a.mode == if is_directory {
                0o40755u16
            } else {
                0o100644u16
            }
            &&& a.atime_sec == 0 && a.mtime_sec == 0 && a.ctime_sec == 0 && a.crtime_sec == 0
            &&& a.atime_nsec == 0 && a.mtime_nsec == 0 && a.ctime_nsec == 0 && a.crtime_nsec == 0
        }),
{
}

/// Attributes are looked at in their order: those of two lists as those of the
/// one and then those of the other.
pub proof fn lemma_attributes_in_order(
    a: FsNtfsAttr,
    first: Seq<SeenAttribute>,
    second: Seq<SeenAttribute>,
    one: SeenAttribute,
)
    ensures
        stat::gathered(a, seq![one], 1) == stat::noted(a, one),
        stat::gathered(a, first + second, (first + second).len() as int) == stat::gathered(
            stat::gathered(a, first, first.len() as int),
            second,
            second.len() as int,
        ),
{
    reveal_with_fuel(stat::gathered, 3);
    lemma_gathered_behind(a, first, second, second.len() as int);
}

proof fn lemma_gathered_behind(
    a: FsNtfsAttr,
    first: Seq<SeenAttribute>,
    second: Seq<SeenAttribute>,
    n: int,
)
    requires
        0 <= n <= second.len(),
    ensures
        stat::gathered(a, first + second, first.len() + n) == stat::gathered(
            stat::gathered(a, first, first.len() as int),
            second,
            n,
        ),
    decreases n,
{
    if n > 0 {
        lemma_gathered_behind(a, first, second, n - 1);
        assert((first + second)[first.len() + n - 1] == second[n - 1]);
    } else {
        lemma_gathered_same(a, first, first + second, first.len() as int);
    }
}

proof fn lemma_gathered_same(a: FsNtfsAttr, s: Seq<SeenAttribute>, t: Seq<SeenAttribute>, n: int)
    requires
        n <= s.len(),
        n <= t.len(),
        forall|i: int| 0 <= i < n ==> s[i] == t[i],
    ensures
        stat::gathered(a, s, n) == stat::gathered(a, t, n),
    decreases n,
{
    if n > 0 {
        lemma_gathered_same(a, s, t, n - 1);
    }
}

/// What is known of a file is what was read of it: each time, its size, links and
/// flags. A reparse point makes it a link by its tag, the low 32 bits.
pub proof fn lemma_what_is_known_of_a_file(
    a: Attr,
    record: u64,
    st: RecordStat,
    reparse: Result<Vec<u8>, String>,
)
    requires
        facade::is_attr(a, record, st, reparse),
    ensures
        is_time(a.crtime_sec as int, a.crtime_nsec as int, st.created_nt as int),
        is_time(a.mtime_sec as int, a.mtime_nsec as int, st.modified_nt as int),
        is_time(a.atime_sec as int, a.atime_nsec as int, st.accessed_nt as int),
        is_time(a.ctime_sec as int, a.ctime_nsec as int, st.mft_modified_nt as int),
        a.file_record_number == record,
        a.size == st.size,
        a.link_count == st.link_count,
        a.attributes == st.file_attributes,
        reparse matches Ok(v) && v@.len() >= 4 && v@[0] == 0x0C && v@[1] == 0 && v@[2] == 0 && v@[3]
            == 0xA0 ==> a.file_type == FileType::Symlink && a.mode == 0o120777,
        reparse matches Ok(v) && v@.len() >= 4 && v@[0] == 0x03 && v@[1] == 0 && v@[2] == 0 && v@[3]
            == 0xA0 ==> a.file_type == FileType::Junction,
        (reparse is Err || reparse->Ok_0@.len() < 4) ==> a.file_type == if st.is_dir {
            FileType::Directory
        } else {
            FileType::Regular
        },
        a.file_type != FileType::Symlink ==> a.mode == if st.is_dir {
            0o40755u16
        } else {
            0o100644u16
        },
{
}

/// The name in an entry that a caller gets is the first 1023 bytes of the name,
/// with zeros behind them.
pub proof fn lemma_name_in_an_entry(d: FsNtfsDirent, record: u64, file_type: u8, name: Seq<u8>)
    requires
        dir::is_dirent(d, record, file_type, name),
    ensures
        d.file_record_number == record,
        d.file_type == file_type,
        d.name@.len() == 1024,
        d.name_len == if name.len() < 1024 {
            name.len() as int
        } else {
            1023
        },
        forall|i: int| 0 <= i < d.name_len ==> #[trigger] d.name@[i] == name[i],
        forall|i: int| d.name_len <= i < 1024 ==> #[trigger] d.name@[i] == 0,
        dir::ROOT_RECORD_NUMBER == 5,
{
}

/// A message is kept as it is, unless it holds the character that ends one.
pub proof fn lemma_message_is_kept(m: Seq<char>)
    ensures
        (forall|i: int| 0 <= i < m.len() ==> m[i] as int != 0) ==> last_error::recorded(m) == m,
        (exists|i: int| 0 <= i < m.len() && m[i] as int == 0) ==> last_error::recorded(m)
            == "unknown"@,
{
    if forall|i: int| 0 <= i < m.len() ==> m[i] as int != 0 {
        if m.contains('\0') {
            let i = choose|i: int| 0 <= i < m.len() && m[i] == '\0';
            assert(m[i] as int == 0);
        }
    }
    if exists|i: int| 0 <= i < m.len() && m[i] as int == 0 {
        let i = choose|i: int| 0 <= i < m.len() && m[i] as int == 0;
        assert(m[i] == '\0');
        assert(m.contains('\0'));
    }
}

/// Names that are the same up to a character are in the order of that character's
/// number, and a name comes before one that it begins.
pub proof fn lemma_order_of_names(a: Seq<char>, b: Seq<char>, i: int)
    requires
        0 <= i <= a.len(),
        i <= b.len(),
        forall|k: int| 0 <= k < i ==> a[k] == b[k],
    ensures
        i < a.len() && i < b.len() && (a[i] as int) < (b[i] as int) ==> listing::not_behind(a, b)
            && !listing::not_behind(b, a),
        i == a.len() ==> listing::not_behind(a, b),
        i == a.len() && a.len() < b.len() ==> !listing::not_behind(b, a),
    decreases i,
{
    if i > 0 {
        assert(a[0] == b[0]);
        let c = a.skip(1);
        let d = b.skip(1);
        assert forall|k: int| 0 <= k < i - 1 implies c[k] == d[k] by {
            assert(a[k + 1] == b[k + 1]);
        }
        lemma_order_of_names(c, d, i - 1);
        assert(i < a.len() ==> c[i - 1] == a[i]);
        assert(i < b.len() ==> d[i - 1] == b[i]);
    }
}

/// Directories are gone into in the order of a stack: those of the later part of
/// a list stand before those of the earlier part.
pub proof fn lemma_directories_of_both(
    d: Seq<char>,
    first: Seq<DirEntry>,
    second: Seq<DirEntry>,
    one: DirEntry,
)
    ensures
        listing::subdirectories(d, seq![one], 1) == if one.file_type == FileType::Directory {
            seq![paths::child_of(d, one.name@)]
        } else {
            Seq::empty()
        },
        listing::subdirectories(d, first + second, (first + second).len() as int)
            == listing::subdirectories(d, second, second.len() as int) + listing::subdirectories(
            d,
            first,
            first.len() as int,
        ),
{
    reveal_with_fuel(listing::subdirectories, 3);
    assert(listing::subdirectories(d, seq![one], 1) =~= if one.file_type == FileType::Directory {
        seq![paths::child_of(d, one.name@)]
    } else {
        Seq::empty()
    });
    lemma_directories_behind(d, first, second, second.len() as int);
}

proof fn lemma_directories_behind(
    d: Seq<char>,
    first: Seq<DirEntry>,
    second: Seq<DirEntry>,
    n: int,
)
    requires
        0 <= n <= second.len(),
    ensures
        listing::subdirectories(d, first + second, first.len() + n) == listing::subdirectories(
            d,
            second,
            n,
        ) + listing::subdirectories(d, first, first.len() as int),
    decreases n,
{
    let rest = listing::subdirectories(d, first, first.len() as int);
    if n > 0 {
        lemma_directories_behind(d, first, second, n - 1);
        assert((first + second)[first.len() + n - 1] == second[n - 1]);
        let less = listing::subdirectories(d, second, n - 1);
        let c = seq![paths::child_of(d, second[n - 1].name@)];
        assert(c + (less + rest) =~= c + less + rest);
    } else {
        lemma_directories_same(d, first, first + second, first.len() as int);
        assert(Seq::<Seq<char>>::empty() + rest =~= rest);
    }
}

proof fn lemma_directories_same(d: Seq<char>, s: Seq<DirEntry>, t: Seq<DirEntry>, n: int)
    requires
        n <= s.len(),
        n <= t.len(),
        forall|i: int| 0 <= i < n ==> s[i] == t[i],
    ensures
        listing::subdirectories(d, s, n) == listing::subdirectories(d, t, n),
    decreases n,
{
    if n > 0 {
        lemma_directories_same(d, s, t, n - 1);
    }
}

/// A line for each entry but the two with dots, in their order: the type, the
/// record's number and the name, with tabs between them.
pub proof fn lemma_lines_of_both(first: Seq<DirEntry>, second: Seq<DirEntry>, one: DirEntry)
    ensures
        listing::is_shown(one) <==> one.name@ != seq!['.'] && one.name@ != seq!['.', '.'],
        listing::record_lines(seq![one], 1) == if listing::is_shown(one) {
            seq![
                listing::type_word(one.file_type) + seq!['\t'] + text::dec(
                    one.file_record_number as nat,
                ) + seq!['\t'] + one.name@,
            ]
        } else {
            Seq::empty()
        },
        listing::record_lines(first + second, (first + second).len() as int)
            == listing::record_lines(first, first.len() as int) + listing::record_lines(
            second,
            second.len() as int,
        ),
{
    reveal_strlit(".");
    reveal_strlit("..");
    reveal_strlit("\t");
    assert("."@ =~= seq!['.']);
    assert(".."@ =~= seq!['.', '.']);
    assert("\t"@ =~= seq!['\t']);
    reveal_with_fuel(listing::record_lines, 3);
    assert(listing::record_lines(seq![one], 1) =~= if listing::is_shown(one) {
        seq![listing::record_line(one)]
    } else {
        Seq::empty()
    });
    lemma_lines_behind(first, second, second.len() as int);
}

proof fn lemma_lines_behind(first: Seq<DirEntry>, second: Seq<DirEntry>, n: int)
    requires
        0 <= n <= second.len(),
    ensures
        listing::record_lines(first + second, first.len() + n) == listing::record_lines(
            first,
            first.len() as int,
        ) + listing::record_lines(second, n),
    decreases n,
{
    let had = listing::record_lines(first, first.len() as int);
    if n > 0 {
        lemma_lines_behind(first, second, n - 1);
        assert((first + second)[first.len() + n - 1] == second[n - 1]);
        let less = listing::record_lines(second, n - 1);
        let line = listing::record_line(second[n - 1]);
        assert((had + less).push(line) =~= had + less.push(line));
    } else {
        lemma_lines_same(first, first + second, first.len() as int);
        assert(had + Seq::<Seq<char>>::empty() =~= had);
    }
}

proof fn lemma_lines_same(s: Seq<DirEntry>, t: Seq<DirEntry>, n: int)
    requires
        n <= s.len(),
        n <= t.len(),
        forall|i: int| 0 <= i < n ==> s[i] == t[i],
    ensures
        listing::record_lines(s, n) == listing::record_lines(t, n),
    decreases n,
{
    if n > 0 {
        lemma_lines_same(s, t, n - 1);
    }
}

/// The letters and words for the types of files.
pub proof fn lemma_letters_of_types()
    ensures
        listing::type_letter(FileType::Directory) == seq!['d'],
        listing::type_letter(FileType::Regular) == seq!['f'],
        listing::type_letter(FileType::Symlink) == seq!['l'],
        listing::type_letter(FileType::Junction) == seq!['j'],
        listing::type_letter(FileType::Other) == seq!['?'],
        listing::type_word(FileType::Directory) == seq!['d', 'i', 'r'],
        listing::type_word(FileType::Regular) == seq!['f', 'i', 'l', 'e'],
        listing::type_word(FileType::Symlink) == seq!['l', 'i', 'n', 'k'],
        listing::type_word(FileType::Junction) == seq![
            'j',
            'u',
            'n',
            'c',
            't',
            'i',
            'o',
            'n',
        ],
        listing::type_word(FileType::Other) == seq!['o', 't', 'h', 'e', 'r'],
{
    reveal_strlit("d");
    reveal_strlit("f");
    reveal_strlit("l");
    reveal_strlit("j");
    reveal_strlit("?");
    reveal_strlit("dir");
    reveal_strlit("file");
    reveal_strlit("link");
    reveal_strlit("junction");
    reveal_strlit("other");
    assert("d"@ =~= seq!['d']);
    assert("f"@ =~= seq!['f']);
    assert("l"@ =~= seq!['l']);
    assert("j"@ =~= seq!['j']);
    assert("?"@ =~= seq!['?']);
    assert("dir"@ =~= seq!['d', 'i', 'r']);
    assert("file"@ =~= seq!['f', 'i', 'l', 'e']);
    assert("link"@ =~= seq!['l', 'i', 'n', 'k']);
    assert("junction"@ =~= seq!['j', 'u', 'n', 'c', 't', 'i', 'o', 'n']);
    assert("other"@ =~= seq!['o', 't', 'h', 'e', 'r']);
}

/// The bytes of the patterns. The sparse one has holes of 4096 bytes between
/// pieces as long, and its bytes are odd.
pub proof fn lemma_bytes_of_patterns(n: nat, i: int)
    requires
        0 <= i < n,
    ensures
        data_source::filled("zeros"@, n) matches Ok(b) && b.len() == n && b[i] == 0,
        data_source::filled("ones"@, n) matches Ok(b) && b.len() == n && b[i] == 255,
        data_source::filled("incrementing"@, n) matches Ok(b) && b.len() == n && b[i] == i % 256,
        data_source::filled("sparse"@, n) is Err,
        data_source::sparse_filled("zeros"@, n) matches Ok(b) && b.len() == n && b[i] == 0,
        data_source::sparse_filled("sparse"@, n) matches Ok(b) && b.len() == n && (i / 4096 % 2 == 1
            ==> b[i] == 0) && (i / 4096 % 2 == 0 ==> b[i] % 2 == 1 && b[i] / 2 == i % 256 / 2),
        data_source::sparse_filled("incrementing"@, n) matches Ok(b) && b.len() == n && b[i] % 2
            == 1 && b[i] / 2 == i % 256 / 2,
{
    reveal_strlit("zeros");
    reveal_strlit("ones");
    reveal_strlit("incrementing");
    reveal_strlit("sparse");
    assert("ones"@.len() != "zeros"@.len());
    assert("incrementing"@.len() != "zeros"@.len() && "incrementing"@.len() != "ones"@.len()
        && "incrementing"@.len() != "sparse"@.len());
    assert("sparse"@.len() != "zeros"@.len() && "sparse"@.len() != "ones"@.len());
}

/// A file's data can be read unless the lowest of its flags is set, or that with
/// the number 0x4000, or its reparse point is that of a file kept compressed
/// elsewhere.
pub proof fn lemma_when_data_can_be_read(flags: u16, tag: Option<u32>)
    ensures
        replies::refusal(flags, tag) is None <==> flags % 2 == 0 && flags / 0x4000 % 2 == 0 && tag
            != Some(0x8000_0017u32),
{
}

/// Names are packed one behind the other, each with a zero behind it.
pub proof fn lemma_names_packed(first: Seq<Vec<u8>>, second: Seq<Vec<u8>>, one: Vec<u8>)
    ensures
        replies::packed(Seq::empty(), 0) == Seq::<u8>::empty(),
        replies::packed(seq![one], 1) == one@.push(0),
        replies::packed(first + second, (first + second).len() as int) == replies::packed(
            first,
            first.len() as int,
        ) + replies::packed(second, second.len() as int),
{
    reveal_with_fuel(replies::packed, 3);
    assert(replies::packed(seq![one], 1) =~= one@.push(0));
    lemma_packed_behind(first, second, second.len() as int);
}

proof fn lemma_packed_behind(first: Seq<Vec<u8>>, second: Seq<Vec<u8>>, n: int)
    requires
        0 <= n <= second.len(),
    ensures
        replies::packed(first + second, first.len() + n) == replies::packed(
            first,
            first.len() as int,
        ) + replies::packed(second, n),
    decreases n,
{
    let had = replies::packed(first, first.len() as int);
    if n > 0 {
        lemma_packed_behind(first, second, n - 1);
        assert((first + second)[first.len() + n - 1] == second[n - 1]);
        let less = replies::packed(second, n - 1);
        let name = second[n - 1]@;
        assert(had + less + name + seq![0u8] =~= had + (less + name + seq![0u8]));
    } else {
        lemma_packed_same(first, first + second, first.len() as int);
        assert(had + Seq::<u8>::empty() =~= had);
    }
}

proof fn lemma_packed_same(s: Seq<Vec<u8>>, t: Seq<Vec<u8>>, n: int)
    requires
        n <= s.len(),
        n <= t.len(),
        forall|i: int| 0 <= i < n ==> s[i] == t[i],
    ensures
        replies::packed(s, n) == replies::packed(t, n),
    decreases n,
{
    if n > 0 {
        lemma_packed_same(s, t, n - 1);
    }
}

/// The name of a volume stands in a field of 128 bytes, cut so that a zero is
/// behind it.
pub proof fn lemma_name_of_a_volume(field: Seq<u8>, name: Seq<u8>)
    ensures
        replies::holds_name(field, Some(name)) <==> field.len() == 128 && forall|i: int|
            0 <= i < 128 ==> #[trigger] field[i] == if i < name.len() && i < 127 {
                name[i]
            } else {
                0
            },
        replies::holds_name(field, None) <==> field.len() == 128 && forall|i: int|
            0 <= i < 128 ==> #[trigger] field[i] == 0,
{
}

/// An argument looks like a flag where it begins with a dash and is not only
/// that. The first pair of dashes is taken out, and what is behind it is taken as
/// it is.
pub proof fn lemma_arguments_behind_the_separator(before: Seq<Seq<char>>, behind: Seq<Seq<char>>)
    requires
        forall|i: int| 0 <= i < before.len() ==> #[trigger] before[i] != seq!['-', '-'],
    ensures
        cli::positional(before + seq![seq!['-', '-']] + behind) == before + behind,
        cli::scanned(before + seq![seq!['-', '-']] + behind) == before.len(),
        cli::positional(before) == before,
        cli::scanned(before) == before.len(),
{
    reveal_strlit("--");
    assert("--"@ =~= seq!['-', '-']);
    let all = before + seq![seq!['-', '-']] + behind;
    let k = before.len() as int;
    assert(all[k] == seq!['-', '-']);
    assert forall|i: int| 0 <= i < k implies all[i] != seq!['-', '-'] by {
        assert(all[i] == before[i]);
    }
    lemma_separator_is(all, 0, k);
    assert(all.take(k) =~= before);
    assert(all.skip(k + 1) =~= behind);
    lemma_no_separator(before, 0);
}

proof fn lemma_separator_is(args: Seq<Seq<char>>, i: int, k: int)
    requires
        0 <= i <= k < args.len(),
        args[k] == "--"@,
        forall|j: int| i <= j < k ==> args[j] != "--"@,
    ensures
        cli::separator_from(args, i) == Some(k),
    decreases k - i,
{
    if i < k {
        lemma_separator_is(args, i + 1, k);
    }
}

proof fn lemma_no_separator(args: Seq<Seq<char>>, i: int)
    requires
        0 <= i <= args.len(),
        forall|j: int| i <= j < args.len() ==> args[j] != "--"@,
    ensures
        cli::separator_from(args, i) is None,
    decreases args.len() - i,
{
    if i < args.len() {
        lemma_no_separator(args, i + 1);
    }
}

/// The options of the formatter.
pub proof fn lemma_options_of_the_formatter()
    ensures
        format_args::kind_of("-h"@) is Help,
        format_args::kind_of("--help"@) is Help,
        format_args::kind_of("-L"@) is Label,
        format_args::kind_of("--label"@) is Label,
        format_args::kind_of("-c"@) is ClusterSize,
        format_args::kind_of("--cluster-size"@) is ClusterSize,
        format_args::kind_of("--mft-record-size"@) is MftRecordSize,
        format_args::kind_of("--serial"@) is Serial,
        format_args::kind_of("-Q"@) is Quick,
        format_args::kind_of("--quick"@) is Quick,
        format_args::kind_of("-f"@) is Quick,
        format_args::kind_of("--fast"@) is Quick,
        format_args::kind_of("-F"@) is Force,
        format_args::kind_of("--force"@) is Force,
        format_args::kind_of("-n"@) is DryRun,
        format_args::kind_of("-q"@) is Quiet,
        format_args::kind_of("--quiet"@) is Quiet,
        format_args::kind_of("--create-size"@) is CreateSize,
{
    reveal_strlit("-h");
    reveal_strlit("--help");
    reveal_strlit("-L");
    reveal_strlit("--label");
    reveal_strlit("-c");
    reveal_strlit("--cluster-size");
    reveal_strlit("--mft-record-size");
    reveal_strlit("--serial");
    reveal_strlit("-Q");
    reveal_strlit("--quick");
    reveal_strlit("-f");
    reveal_strlit("--fast");
    reveal_strlit("-F");
    reveal_strlit("--force");
    reveal_strlit("-n");
    reveal_strlit("-q");
    reveal_strlit("--quiet");
    reveal_strlit("--create-size");
    assert("-h"@[1] == 'h' && "-L"@[1] == 'L' && "-c"@[1] == 'c' && "-Q"@[1] == 'Q' && "-f"@[1]
        == 'f' && "-F"@[1] == 'F' && "-n"@[1] == 'n' && "-q"@[1] == 'q');
    assert("--help"@[2] == 'h' && "--fast"@[2] == 'f');
    assert("--label"@[2] == 'l' && "--quick"@[4] == 'i' && "--force"@[2] == 'f' && "--quiet"@[4]
        == 'i');
    assert("--quick"@[5] == 'c' && "--quiet"@[5] == 'e');
    assert("--label"@[4] == 'b' && "--force"@[4] == 'r');
    assert("--serial"@.len() == 8 && "--create-size"@.len() == 13 && "--cluster-size"@.len() == 14
        && "--mft-record-size"@.len() == 17);
    assert("--help"@.len() == 6 && "--fast"@.len() == 6 && "--label"@.len() == 7
        && "--quick"@.len() == 7 && "--force"@.len() == 7 && "--quiet"@.len() == 7);
    assert("-h"@.len() == 2 && "-L"@.len() == 2 && "-c"@.len() == 2 && "-Q"@.len() == 2
        && "-f"@.len() == 2 && "-F"@.len() == 2 && "-n"@.len() == 2 && "-q"@.len() == 2);
}

/// An option sets what it is for and nothing else, and the next argument is the
/// one behind it, or behind its value.
pub proof fn lemma_an_option_sets_one_thing(
    o: OptsView,
    arg: Seq<char>,
    value: Option<Seq<char>>,
    usage: Seq<char>,
)
    ensures
        match format_args::taken(o, arg, value, usage) {
            format_args::Taken::Next(p, n) => {
                let kind = format_args::kind_of(arg);
                &&& n == (if kind is Label || kind is ClusterSize || kind is MftRecordSize
                    || kind is Serial || kind is CreateSize {
                    2int
                } else {
                    1
                })
                &&& !(kind is Label) ==> p.label == o.label
                &&& kind is Label ==> p.label == value && value is Some
                &&& !(kind is ClusterSize) ==> p.cluster_size == o.cluster_size
                &&& !(kind is MftRecordSize) ==> p.mft_record_size == o.mft_record_size
                &&& !(kind is Serial) ==> p.serial == o.serial
                &&& !(kind is CreateSize) ==> p.create_size == o.create_size
                &&& p.force == (o.force || kind is Force)
                &&& p.quick == (o.quick || kind is Quick)
                &&& p.dry_run == (o.dry_run || kind is DryRun)
                &&& p.quiet == (o.quiet || kind is Quiet)
                &&& !(kind is Device) ==> p.device == o.device
                &&& kind is Device ==> p.device == Some(arg) && o.device is None
            },
            format_args::Taken::Help => format_args::kind_of(arg) is Help,
            format_args::Taken::Wrong(_) => !(format_args::kind_of(arg) is Help),
        },
{
}

/// A listing begins with the directory itself and the one above it, both as
/// directories, and goes on with the entries in their order.
pub proof fn lemma_listing_begins_with_dots(
    list: Seq<DirEntry>,
    record: u64,
    parent: u64,
    entries: Seq<ListedEntry>,
    i: int,
)
    requires
        facade::is_listing(list, record, parent, entries),
    ensures
        list.len() == entries.len() + 2,
        list[0].name@ == seq!['.'],
        list[0].file_record_number == record,
        list[0].file_type == FileType::Directory,
        list[1].name@ == seq!['.', '.'],
        list[1].file_record_number == parent,
        list[1].file_type == FileType::Directory,
        0 <= i < entries.len() ==> list[i + 2].name@ == entries[i].name@ && list[i
            + 2].file_record_number == entries[i].record_number && list[i + 2].file_type == if entries[i].is_dir {
            FileType::Directory
        } else {
            FileType::Regular
        },
{
    reveal_strlit(".");
    reveal_strlit("..");
    assert("."@ =~= seq!['.']);
    assert(".."@ =~= seq!['.', '.']);
    if 0 <= i < entries.len() {
        assert(facade::is_entry(list[i + 2], entries[i]));
    }
}

/// What a lister is asked for: an image, and from the root of it on where no path
/// is given. Each option sets its own thing, wherever it stands.
pub proof fn lemma_options_of_the_lister(
    image: Seq<char>,
    path: Seq<char>,
    rest: Seq<Seq<char>>,
    v: LsView,
    usage: Seq<char>,
)
    requires
        image.len() > 0,
        image[0] != '-',
    ensures
        listing::ls_asked(seq![image], usage) == Ok::<Option<LsView>, Seq<char>>(
            Some(LsView { image: Some(image), start_path: "/"@, show_type: false }),
        ),
        listing::ls_asked(Seq::empty(), usage) is Err,
        listing::ls_from(seq!["-t"@] + rest, 0, v, usage) == listing::ls_from(
            rest,
            0,
            LsView { show_type: true, ..v },
            usage,
        ),
        listing::ls_from(seq!["-p"@, path] + rest, 0, v, usage) == listing::ls_from(
            rest,
            0,
            LsView { start_path: path, ..v },
            usage,
        ),
        listing::ls_from(seq!["-h"@] + rest, 0, v, usage) == Ok::<Option<LsView>, Seq<char>>(None),
        v.image is Some ==> listing::ls_from(seq![image] + rest, 0, v, usage) is Err,
{
    reveal_strlit("-t");
    reveal_strlit("-p");
    reveal_strlit("-h");
    reveal_strlit("--type");
    reveal_strlit("--path");
    reveal_strlit("--help");
    reveal_with_fuel(listing::ls_from, 3);
    assert("-t"@[1] == 't' && "-p"@[1] == 'p' && "-h"@[1] == 'h');
    assert("-t"@.len() == 2 && "-p"@.len() == 2 && "-h"@.len() == 2);
    assert("--type"@.len() == 6 && "--path"@.len() == 6 && "--help"@.len() == 6);
    assert("-t"@[0] == '-' && "-p"@[0] == '-' && "-h"@[0] == '-');
    assert("--type"@[0] == '-' && "--path"@[0] == '-' && "--help"@[0] == '-');
    let one = seq!["-t"@] + rest;
    assert(one[0] == "-t"@);
    lemma_ls_behind(seq!["-t"@], rest, 0, LsView { show_type: true, ..v }, usage);
    let two = seq!["-p"@, path] + rest;
    assert(two[0] == "-p"@ && two[1] == path);
    lemma_ls_behind(seq!["-p"@, path], rest, 0, LsView { start_path: path, ..v }, usage);
    assert((seq!["-h"@] + rest)[0] == "-h"@);
    assert((seq![image] + rest)[0] == image);
}

proof fn lemma_ls_behind(
    first: Seq<Seq<char>>,
    rest: Seq<Seq<char>>,
    i: int,
    v: LsView,
    usage: Seq<char>,
)
    requires
        0 <= i,
    ensures
        listing::ls_from(first + rest, first.len() + i, v, usage) == listing::ls_from(
            rest,
            i,
            v,
            usage,
        ),
    decreases rest.len() - i,
{
    if i < rest.len() {
        let all = first + rest;
        assert(all[first.len() + i] == rest[i]);
        if i + 1 < rest.len() {
            assert(all[first.len() + (i + 1)] == rest[i + 1]);
        }
        if rest[i] == "-p"@ || rest[i] == "--path"@ {
            if i + 1 < rest.len() {
                lemma_ls_behind(first, rest, i + 2, LsView { start_path: rest[i + 1], ..v }, usage);
            }
        } else if rest[i] == "-t"@ || rest[i] == "--type"@ {
            lemma_ls_behind(first, rest, i + 1, LsView { show_type: true, ..v }, usage);
        } else {
            lemma_ls_behind(first, rest, i + 1, LsView { image: Some(rest[i]), ..v }, usage);
        }
    }
}

/// Of what is given to write, the text counts before the file, and the file
/// before the pattern.
pub proof fn lemma_what_is_written(s: SourceView)
    ensures
        s.content matches Some(c) ==> data_source::chosen(s) == Ok::<DataView, Seq<char>>(
            DataView::Bytes(vstd::utf8::encode_utf8(c)),
        ),
        s.content is None && s.from_file is Some ==> data_source::chosen(s) == Ok::<
            DataView,
            Seq<char>,
        >(DataView::File(s.from_file->0)),
        s.content is None && s.from_file is None && s.bytes is None ==> data_source::chosen(s)
            is Err,
        s.content is None && s.from_file is None && s.bytes is Some && s.pattern == "zeros"@
            && s.bytes->0 <= usize::MAX ==> (data_source::chosen(s) matches Ok(DataView::Bytes(b))
            && b.len() == s.bytes->0),
{
}

/// A volume may be changed where it was mounted by a path, or by something that
/// can be written to.
pub proof fn lemma_when_a_volume_may_be_changed(can: bool)
    ensures
        replies::change_refusal(MountKind::Path) is None,
        replies::change_refusal(MountKind::Callbacks { can_write: can }) is None <==> can,
        replies::change_refusal(MountKind::Device { writable: can }) is None <==> can,
        replies::change_refusal(MountKind::Unknown) is Some,
{
}

/// The identifiers of a file stand one behind the other, each of 16 bytes: its
/// own, and where there is room for all, those of the volume, the file and the
/// domain of its birth.
pub proof fn lemma_identifiers_in_order(ids: ObjectIds, capacity: int)
    ensures
        ({
            let b = replies::object_id_bytes(ids, capacity);
            &&& b.take(16) == ids.object_id@
            &&& ids.birth_ids is None || capacity < 64 ==> b.len() == 16
            &&& ids.birth_ids matches Some((v, o, d)) ==> capacity >= 64 ==> {
                &&& b.len() == 64
                &&& b.subrange(16, 32) == v@
                &&& b.subrange(32, 48) == o@
                &&& b.subrange(48, 64) == d@
            }
        }),
{
    let b = replies::object_id_bytes(ids, capacity);
    assert(ids.object_id@.len() == 16);
    assert(b.take(16) =~= ids.object_id@);
    if let Some((v, o, d)) = ids.birth_ids {
        if capacity >= 64 {
            assert(v@.len() == 16 && o@.len() == 16 && d@.len() == 16);
            assert(b.subrange(16, 32) =~= v@);
            assert(b.subrange(32, 48) =~= o@);
            assert(b.subrange(48, 64) =~= d@);
        }
    }
}

/// Which arguments look like flags, and which the formatter takes for its device.
pub proof fn lemma_dashes(arg: Seq<char>)
    ensures
        cli::looks_like_flag(arg) <==> arg.len() >= 2 && arg[0] == '-',
        arg.len() > 0 && arg[0] != '-' ==> format_args::kind_of(arg) is Device,
        arg.len() > 0 && arg[0] == '-' ==> !(format_args::kind_of(arg) is Device),
        format_args::DEFAULT_SIZE == 4096,
{
    reveal_strlit("-h");
    reveal_strlit("--help");
    reveal_strlit("-L");
    reveal_strlit("--label");
    reveal_strlit("-c");
    reveal_strlit("--cluster-size");
    reveal_strlit("--mft-record-size");
    reveal_strlit("--serial");
    reveal_strlit("-Q");
    reveal_strlit("--quick");
    reveal_strlit("-f");
    reveal_strlit("--fast");
    reveal_strlit("-F");
    reveal_strlit("--force");
    reveal_strlit("-n");
    reveal_strlit("-q");
    reveal_strlit("--quiet");
    reveal_strlit("--create-size");
}

/// The flags of what to write: each sets its own thing to its value. Text and file
/// are flags only where a whole file is written.
pub proof fn lemma_flags_of_a_source(s: SourceView, v: Seq<char>, n: nat, whole: bool)
    ensures
        data_source::flag_taken(s, "--content"@, Some(v), true) == Ok::<SourceView, Seq<char>>(
            SourceView { content: Some(v), ..s },
        ),
        data_source::flag_taken(s, "--from"@, Some(v), true) == Ok::<SourceView, Seq<char>>(
            SourceView { from_file: Some(v), ..s },
        ),
        data_source::flag_taken(s, "--content"@, Some(v), false) is Err,
        data_source::flag_taken(s, "--from"@, Some(v), false) is Err,
        data_source::flag_taken(s, "--pattern"@, Some(v), whole) == Ok::<SourceView, Seq<char>>(
            SourceView { pattern: v, ..s },
        ),
        n <= u64::MAX ==> data_source::flag_taken(s, "--bytes"@, Some(text::dec(n)), whole) == Ok::<
            SourceView,
            Seq<char>,
        >(SourceView { bytes: Some(n as u64), ..s }),
        data_source::flag_taken(s, v, None, whole) is Err,
        data_source::no_source(v) == (SourceView {
            content: None,
            bytes: None,
            from_file: None,
            pattern: v,
        }),
{
    reveal_strlit("--content");
    reveal_strlit("--from");
    reveal_strlit("--pattern");
    reveal_strlit("--bytes");
    assert("--content"@.len() == 9 && "--from"@.len() == 6 && "--pattern"@.len() == 9
        && "--bytes"@.len() == 7);
    assert("--content"@[2] == 'c' && "--pattern"@[2] == 'p');
    crate::text_laws::lemma_written_is_read_back(n, 10, u64::MAX as int);
}

/// Flags and their values are taken pair by pair: those of two lists as those of
/// the one and then those of the other.
pub proof fn lemma_flags_pair_by_pair(
    flag: Seq<char>,
    value: Seq<char>,
    rest: Seq<Seq<char>>,
    s: SourceView,
    whole: bool,
)
    ensures
        data_source::source_from(seq![flag, value] + rest, 0, s, whole)
            == match data_source::flag_taken(s, flag, Some(value), whole) {
            Ok(next) => data_source::source_from(rest, 0, next, whole),
            Err(m) => Err(m),
        },
        data_source::source_from(Seq::empty(), 0, s, whole) == Ok::<SourceView, Seq<char>>(s),
{
    let all = seq![flag, value] + rest;
    assert(all[0] == flag && all[1] == value);
    if let Ok(next) = data_source::flag_taken(s, flag, Some(value), whole) {
        lemma_source_behind(seq![flag, value], rest, 0, next, whole);
    }
}

proof fn lemma_source_behind(
    first: Seq<Seq<char>>,
    rest: Seq<Seq<char>>,
    i: int,
    s: SourceView,
    whole: bool,
)
    requires
        0 <= i,
    ensures
        data_source::source_from(first + rest, first.len() + i, s, whole)
            == data_source::source_from(rest, i, s, whole),
    decreases rest.len() - i,
{
    if i < rest.len() {
        let all = first + rest;
        assert(all[first.len() + i] == rest[i]);
        let value = if i + 1 < rest.len() {
            Some(rest[i + 1])
        } else {
            None
        };
        if i + 1 < rest.len() {
            assert(all[first.len() + (i + 1)] == rest[i + 1]);
        }
        if let Ok(next) = data_source::flag_taken(s, rest[i], value, whole) {
            lemma_source_behind(first, rest, i + 2, next, whole);
        }
    }
}

/// The options of the formatter that have a value take a decimal number, and the
/// serial number a hexadecimal one.
pub proof fn lemma_values_of_options(o: OptsView, arg: Seq<char>, n: nat, serial: u64, usage: Seq<char>)
    ensures
        n <= u32::MAX && format_args::kind_of(arg) is ClusterSize ==> format_args::taken(
            o,
            arg,
            Some(text::dec(n)),
            usage,
        ) == format_args::Taken::Next(OptsView { cluster_size: Some(n as u32), ..o }, 2),
        n <= u32::MAX && format_args::kind_of(arg) is MftRecordSize ==> format_args::taken(
            o,
            arg,
            Some(text::dec(n)),
            usage,
        ) == format_args::Taken::Next(OptsView { mft_record_size: Some(n as u32), ..o }, 2),
        n <= u64::MAX && format_args::kind_of(arg) is CreateSize ==> format_args::taken(
            o,
            arg,
            Some(text::dec(n)),
            usage,
        ) == format_args::Taken::Next(OptsView { create_size: Some(n as u64), ..o }, 2),
        format_args::kind_of(arg) is Serial ==> format_args::taken(
            o,
            arg,
            Some(text::hex(serial as nat)),
            usage,
        ) == format_args::Taken::Next(OptsView { serial: Some(serial), ..o }, 2),
        n > u32::MAX && (format_args::kind_of(arg) is ClusterSize || format_args::kind_of(
            arg,
        ) is MftRecordSize) ==> format_args::taken(o, arg, Some(text::dec(n)), usage) is Wrong,
{
    crate::text_laws::lemma_written_is_read_back(n, 10, u32::MAX as int);
    crate::text_laws::lemma_size_by_its_letter(n, 'K', 'B');
    crate::text_laws::lemma_serial_is_read_back(serial);
}

/// The line for an entry is its path, and where types are shown a letter and a
/// space before it.
pub proof fn lemma_line_of_an_entry(d: Seq<char>, e: DirEntry)
    ensures
        listing::line_of(d, e, false) == paths::child_of(d, e.name@),
        listing::line_of(d, e, true) == listing::type_letter(e.file_type) + seq![' ']
            + listing::line_of(d, e, false),
{
    reveal_strlit(" ");
    assert(" "@ =~= seq![' ']);
}

/// What is shown of a file, a line for each: the number of its record, its size,
/// its mode in octal digits, its links and its type.
pub proof fn lemma_lines_of_a_file(a: Attr)
    ensures
        ({
            let lines = listing::stat_text(a);
            &&& lines.len() == 5
            &&& lines[0] == "rec_num="@ + text::dec(a.file_record_number as nat)
            &&& lines[1] == "size="@ + text::dec(a.size as nat)
            &&& lines[2] == "mode="@ + text::oct(a.mode as nat)
            &&& lines[3] == "link_count="@ + text::dec(a.link_count as nat)
            &&& lines[4] == "type="@ + listing::type_word(a.file_type)
        }),
{
}

} // verus!
