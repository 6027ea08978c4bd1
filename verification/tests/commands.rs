//! The commands: their arguments, what they refuse and what they print.

use fs_ntfs::cli::{
    exit_code, next_arg, next_pos, positionals, unknown_flag, wants_help, CliError, FAILURE_EXIT, USAGE_EXIT,
};
use fs_ntfs::data_source::{fill_pattern, parse_data_source, parse_sparse_source, DataSource};
use fs_ntfs::facade::{Attr, DirEntry, FileType};
use fs_ntfs::format_args::{
    announce_format, existing_target, format_plan, parse_args, parse_hex_u64, parse_size,
    ExistingTarget, Opts,
};
use fs_ntfs::listing::{
    child_directories, enumerate_lines, listing_lines, parse_ls_args, shown_entries, stat_lines,
    type_name_of, Walk,
};
use fs_ntfs::paths::{child_path, has_parent, path_components, split_path, Component};

fn args(list: &[&str]) -> Vec<String> {
    list.iter().map(|s| s.to_string()).collect()
}

// --- help, exit codes and positional arguments ---

#[test]
fn help_is_found_anywhere() {
    assert!(wants_help(&args(&["vol.img", "--help"])));
    assert!(wants_help(&args(&["-h"])));
    assert!(!wants_help(&args(&["vol.img", "-help"])));
    assert!(!wants_help(&[]));
}

#[test]
fn exit_codes_tell_usage_from_failure() {
    assert_eq!(exit_code(&Ok(())), 0);
    assert_eq!(exit_code(&Err(CliError::Usage("x".to_string()))), USAGE_EXIT);
    assert_eq!(exit_code(&Err(CliError::from("x".to_string()))), FAILURE_EXIT);
    assert_eq!((USAGE_EXIT, FAILURE_EXIT), (2, 1));
}

fn usage_of(res: Result<Vec<String>, CliError>) -> String {
    match res {
        Err(CliError::Usage(m)) => m,
        Err(CliError::Failed(m)) => panic!("failed: {m}"),
        Ok(v) => panic!("accepted: {v:?}"),
    }
}

#[test]
fn what_looks_like_a_flag_is_not_a_path() {
    let m = usage_of(positionals(&args(&["vol.img", "-x"]), 2, "USAGE"));
    assert_eq!(
        m,
        "unknown flag \"-x\"; this verb takes 2 argument(s) and no flags. \
         If that is a filename, put it after `--`.\n\nUSAGE"
    );
    assert_eq!(m, unknown_flag("\"-x\"", 2, "USAGE"));
}

#[test]
fn a_flag_is_quoted_with_escapes() {
    let m = usage_of(positionals(&args(&["-a\"b\n"]), 1, "U"));
    assert!(m.starts_with("unknown flag \"-a\\\"b\\n\"; this verb takes 1 "), "{m}");
}

#[test]
fn behind_two_dashes_anything_is_a_path() {
    let v = positionals(&args(&["vol.img", "--", "-x"]), 2, "U");
    assert_eq!(v.ok(), Some(args(&["vol.img", "-x"])));
    let v = positionals(&args(&["vol.img", "-"]), 2, "U");
    assert_eq!(v.ok(), Some(args(&["vol.img", "-"])), "a lone dash is no flag");
}

#[test]
fn the_number_of_arguments_is_exact() {
    assert_eq!(
        usage_of(positionals(&args(&["a"]), 2, "U")),
        "expected exactly 2 arguments, got 1\n\nU"
    );
    assert_eq!(
        usage_of(positionals(&args(&["a", "--", "b", "c"]), 2, "U")),
        "expected exactly 2 arguments, got 3\n\nU"
    );
}

#[test]
fn an_argument_that_is_missing_is_named() {
    let list = args(&["vol.img"]);
    assert_eq!(next_arg(&list, 0, "image").unwrap(), "vol.img");
    assert_eq!(next_arg(&list, 1, "path").unwrap_err(), "missing <path>");
    assert_eq!(next_pos(&list, 0, "create", "x").unwrap(), "vol.img");
    assert_eq!(
        next_pos(&list, 1, "create", "basename").unwrap_err(),
        "create: missing <basename> argument"
    );
}

// --- sizes and serial numbers ---

#[test]
fn sizes_have_suffixes() {
    assert_eq!(parse_size("4096").unwrap(), 4096);
    assert_eq!(parse_size(" 64M ").unwrap(), 64 * 1024 * 1024);
    assert_eq!(parse_size("1KB").unwrap(), 1024);
    assert_eq!(parse_size("2gb").unwrap(), 2 << 30);
    assert_eq!(parse_size("1T").unwrap(), 1 << 40);
    assert_eq!(parse_size("7b").unwrap(), 7);
}

#[test]
fn sizes_that_are_none_are_refused() {
    assert_eq!(
        parse_size("  ").unwrap_err(),
        "--create-size: empty size argument"
    );
    assert_eq!(
        parse_size("10X").unwrap_err(),
        "--create-size: unrecognised size suffix in \"10X\""
    );
    assert_eq!(
        parse_size("M").unwrap_err(),
        "--create-size: not a valid number: \"\""
    );
    assert_eq!(
        parse_size("16777216T").unwrap_err(),
        "--create-size: 16777216T overflows u64"
    );
}

#[test]
fn serial_numbers_are_hexadecimal() {
    assert_eq!(parse_hex_u64("0xDEADbeef").unwrap(), 0xDEAD_BEEF);
    assert_eq!(parse_hex_u64("ffffffffffffffff").unwrap(), u64::MAX);
    assert_eq!(
        parse_hex_u64("0x").unwrap_err(),
        "serial must be 1..=16 hex chars (with optional 0x prefix), got 0 chars"
    );
    assert_eq!(
        parse_hex_u64("11112222333344445").unwrap_err(),
        "serial must be 1..=16 hex chars (with optional 0x prefix), got 17 chars"
    );
    assert_eq!(
        parse_hex_u64("12g4").unwrap_err(),
        "serial has non-hex character: 12g4"
    );
}

// --- the arguments of a format ---

fn parsed(list: &[&str]) -> Opts {
    match parse_args(&args(list), "U") {
        Ok(Some(o)) => o,
        Ok(None) => panic!("help"),
        Err(m) => panic!("{m}"),
    }
}

fn refused(list: &[&str]) -> String {
    match parse_args(&args(list), "U") {
        Err(m) => m,
        Ok(_) => panic!("accepted"),
    }
}

#[test]
fn format_arguments_are_gathered() {
    let o = parsed(&[
        "-L", "DATA", "-c", "8192", "--serial", "0xAB", "-Q", "-F", "-n", "-q", "--create-size",
        "64M", "vol.img",
    ]);
    assert_eq!(o.label.as_deref(), Some("DATA"));
    assert_eq!(o.cluster_size, Some(8192));
    assert_eq!(o.mft_record_size, None);
    assert_eq!(o.serial, Some(0xAB));
    assert!(o.quick && o.force && o.dry_run && o.quiet);
    assert_eq!(o.create_size, Some(64 * 1024 * 1024));
    assert_eq!(o.device.as_deref(), Some("vol.img"));
}

#[test]
fn format_help_wins_over_what_follows() {
    assert!(matches!(parse_args(&args(&["-h", "--bogus"]), "U"), Ok(None)));
}

#[test]
fn format_arguments_that_are_wrong_are_named() {
    assert_eq!(refused(&["--bogus"]), "unknown flag: --bogus\n\nU");
    assert_eq!(refused(&["-L"]), "-L requires a label argument");
    assert_eq!(
        refused(&["a", "b"]),
        "extra positional argument: b (only one device may be given)"
    );
}

#[test]
fn a_format_needs_a_device_and_has_defaults() {
    let p = format_plan(&parsed(&["vol.img"]), "U").ok().unwrap();
    assert_eq!((p.cluster_size, p.mft_record_size), (4096, 4096));
    assert_eq!(p.device, "vol.img");
    match format_plan(&parsed(&["-q"]), "U") {
        Err(m) => assert_eq!(m, "missing positional <device> argument\n\nU"),
        Ok(_) => panic!("no device was given"),
    }
}

#[test]
fn a_format_is_announced() {
    let o = parsed(&["-Q", "-n", "vol.img"]);
    let p = format_plan(&o, "U").ok().unwrap();
    assert_eq!(
        announce_format(&p, 1 << 20, &o).unwrap(),
        "rust-ntfs format: formatting vol.img (1048576 bytes, cluster_size=4096, \
         mft_record_size=4096, quick, dry-run)"
    );
    assert_eq!(
        announce_format(&p, 0, &o).unwrap_err(),
        "device vol.img reports size 0 — pre-create with truncate / fsutil first"
    );
}

#[test]
fn what_is_there_is_not_created() {
    let there = |is_device, is_file| {
        existing_target("v", &ExistingTarget { is_device, is_file, length: 9 })
    };
    assert_eq!(
        there(false, true).unwrap(),
        "rust-ntfs format: --create-size: v already exists (9 bytes); leaving as-is"
    );
    assert_eq!(
        there(true, false).unwrap_err(),
        "--create-size refuses to apply to v: looks like a real block/char device, \
         not a regular file."
    );
    assert_eq!(
        there(false, false).unwrap_err(),
        "--create-size: v exists but is not a regular file"
    );
}

// --- what is to be written ---

fn bytes_of(res: Result<DataSource, String>) -> Vec<u8> {
    match res {
        Ok(DataSource::Bytes(b)) => b,
        Ok(DataSource::File(f)) => panic!("file {f}"),
        Err(m) => panic!("{m}"),
    }
}

#[test]
fn a_string_comes_before_a_file_and_a_file_before_a_pattern() {
    let all = ["--bytes", "4", "--from", "f.bin", "--content", "h\u{e9}"];
    assert_eq!(
        bytes_of(parse_data_source(&args(&all))),
        "h\u{e9}".as_bytes().to_vec()
    );
    match parse_data_source(&args(&all[..4])) {
        Ok(DataSource::File(f)) => assert_eq!(f, "f.bin"),
        _ => panic!("a file was named"),
    }
    assert_eq!(bytes_of(parse_data_source(&args(&all[..2]))), vec![0u8; 4]);
}

#[test]
fn patterns_fill_bytes() {
    assert_eq!(
        bytes_of(parse_data_source(&args(&["--bytes", "3", "--pattern", "ones"]))),
        vec![0xFF; 3]
    );
    let inc = fill_pattern("incrementing", 258).unwrap();
    assert_eq!((inc[0], inc[255], inc[256], inc[257]), (0, 255, 0, 1));
}

#[test]
fn data_sources_that_are_wrong_are_named() {
    let why = |list: &[&str]| match parse_data_source(&args(list)) {
        Err(m) => m,
        Ok(_) => panic!("accepted"),
    };
    assert_eq!(why(&[]), "write: provide one of --content / --bytes / --from");
    assert_eq!(why(&["--content"]), "--content requires a string");
    assert_eq!(why(&["--bytes"]), "--bytes requires a number");
    assert_eq!(why(&["--bytes", "x"]), "--bytes: bad number x");
    assert_eq!(why(&["--from"]), "--from requires a path");
    assert_eq!(why(&["--pattern"]), "--pattern requires a value");
    assert_eq!(why(&["--nope"]), "unknown flag: --nope");
    assert_eq!(
        why(&["--bytes", "1", "--pattern", "p"]),
        "unknown --pattern: p"
    );
}

#[test]
fn a_sparse_write_needs_its_length() {
    assert_eq!(
        parse_sparse_source(&[]).unwrap_err(),
        "sparse: --bytes is required"
    );
    let d = parse_sparse_source(&args(&["--bytes", "8192"])).unwrap();
    assert_eq!(&d[..4], &[1, 1, 3, 3]);
    assert!(d[4096..].iter().all(|&b| b == 0));
}

// --- paths ---

fn steps(path: &str) -> Vec<String> {
    path_components(path)
        .into_iter()
        .map(|c| match c {
            Component::Up => "<up>".to_string(),
            Component::Name(n) => n,
        })
        .collect()
}

#[test]
fn paths_are_taken_apart() {
    assert_eq!(steps("/"), args(&[]));
    assert_eq!(steps("//a/./b//../c/"), args(&["a", "b", "<up>", "c"]));
    assert_eq!(steps("..."), args(&["..."]));
    assert!(!has_parent(5));
    assert!(has_parent(64));
}

#[test]
fn a_path_splits_at_its_last_slash() {
    assert_eq!(
        split_path("/docs/a.txt").unwrap(),
        ("/docs".to_string(), "a.txt".to_string())
    );
    assert_eq!(
        split_path("/a.txt").unwrap(),
        ("/".to_string(), "a.txt".to_string())
    );
    assert_eq!(
        split_path("a.txt").unwrap_err(),
        "path 'a.txt' must contain at least one '/'"
    );
    assert_eq!(
        split_path("/docs/").unwrap_err(),
        "path '/docs/' has empty basename"
    );
}

#[test]
fn a_path_that_was_put_together_comes_apart() {
    for (dir, name) in [("/", "x"), ("/a", "y z"), ("/a/b", "\u{e9}")] {
        let p = child_path(dir, name);
        assert_eq!(split_path(&p).unwrap(), (dir.to_string(), name.to_string()));
    }
    assert_eq!(child_path("/", "x"), "/x");
    assert_eq!(child_path("/a", "x"), "/a/x");
}

// --- listings ---

fn entry(name: &str, file_type: FileType, file_record_number: u64) -> DirEntry {
    DirEntry {
        file_record_number,
        file_type,
        name: name.to_string(),
    }
}

fn some_entries() -> Vec<DirEntry> {
    vec![
        entry(".", FileType::Directory, 5),
        entry("..", FileType::Directory, 5),
        entry("b", FileType::Regular, 40),
        entry("B", FileType::Directory, 41),
        entry("ab", FileType::Directory, 42),
        entry("a", FileType::Symlink, 43),
        entry("b", FileType::Junction, 44),
    ]
}

#[test]
fn a_listing_is_in_the_order_of_names() {
    let list = shown_entries(some_entries());
    let got: Vec<(&str, u64)> = list
        .iter()
        .map(|e| (e.name.as_str(), e.file_record_number))
        .collect();
    assert_eq!(
        got,
        vec![("B", 41), ("a", 43), ("ab", 42), ("b", 40), ("b", 44)]
    );
    let plain = listing_lines("/", &list, false);
    assert_eq!(plain, args(&["/B", "/a", "/ab", "/b", "/b"]));
    let typed = listing_lines("/d", &list, true);
    assert_eq!(
        typed,
        args(&["d /d/B", "l /d/a", "d /d/ab", "f /d/b", "j /d/b"])
    );
    assert_eq!(
        child_directories("/d", &list),
        args(&["/d/ab", "/d/B"]),
        "the last first, for a stack"
    );
}

#[test]
fn a_walk_goes_down_before_it_goes_on() {
    let mut walk = Walk::new("/".to_string(), true);
    assert_eq!(walk.next().as_deref(), Some("/"));
    let lines = walk.accept(
        "/",
        vec![
            entry(".", FileType::Directory, 5),
            entry("b", FileType::Directory, 31),
            entry("a", FileType::Directory, 30),
            entry("c", FileType::Regular, 32),
        ],
    );
    assert_eq!(lines, args(&["d /a", "d /b", "f /c"]));
    assert_eq!(walk.next().as_deref(), Some("/a"));
    let lines = walk.accept("/a", vec![entry("x", FileType::Directory, 40)]);
    assert_eq!(lines, args(&["d /a/x"]));
    assert_eq!(walk.next().as_deref(), Some("/a/x"));
    assert!(walk.accept("/a/x", Vec::new()).is_empty());
    assert_eq!(walk.next().as_deref(), Some("/b"));
    assert!(walk.accept("/b", Vec::new()).is_empty());
    assert_eq!(walk.next(), None);
}

#[test]
fn the_arguments_of_a_listing() {
    let a = parse_ls_args(&args(&["-t", "-p", "/x", "v.img"]), "U")
        .unwrap()
        .unwrap();
    assert_eq!((a.image.as_str(), a.start_path.as_str(), a.show_type), ("v.img", "/x", true));
    let a = parse_ls_args(&args(&["v.img"]), "U").unwrap().unwrap();
    assert_eq!((a.start_path.as_str(), a.show_type), ("/", false));
    assert!(parse_ls_args(&args(&["v.img", "-h"]), "U").unwrap().is_none());
    let why = |list: &[&str]| match parse_ls_args(&args(list), "U") {
        Err(m) => m,
        Ok(_) => panic!("accepted"),
    };
    assert_eq!(why(&["--path"]), "--path requires a path argument");
    assert_eq!(why(&["-x"]), "unknown flag: -x\n\nU");
    assert_eq!(why(&["a", "b"]), "only one image argument allowed");
    assert_eq!(why(&[]), "missing <image> argument\n\nU");
}

#[test]
fn enumerating_tells_records_and_their_number() {
    assert_eq!(
        enumerate_lines(&some_entries()),
        args(&[
            "file\t40\tb",
            "dir\t41\tB",
            "dir\t42\tab",
            "link\t43\ta",
            "junction\t44\tb",
            "count=5",
        ])
    );
    assert_eq!(type_name_of(FileType::Other), "other");
}

#[test]
fn looking_at_a_file_prints_its_mode_in_octal() {
    let a = Attr {
        file_record_number: 64,
        size: 1234,
        atime_sec: 0,
        mtime_sec: 0,
        ctime_sec: 0,
        crtime_sec: 0,
        atime_nsec: 0,
        mtime_nsec: 0,
        ctime_nsec: 0,
        crtime_nsec: 0,
        mode: 0o100644,
        link_count: 2,
        file_type: FileType::Regular,
        attributes: 0x20,
    };
    assert_eq!(
        stat_lines(&a),
        args(&["rec_num=64", "size=1234", "mode=100644", "link_count=2", "type=file"])
    );
}
