//! The patterns that a file can be filled with.

use fs_ntfs::data_source::{gen_pattern, SPARSE_BLOCK};

#[test]
fn zeros_pattern_is_all_zero() {
    assert!(gen_pattern("zeros", 8192).unwrap().iter().all(|&b| b == 0));
}

#[test]
fn sparse_pattern_alternates_4k_blocks() {
    let d = gen_pattern("sparse", 3 * SPARSE_BLOCK).unwrap();
    // block 0: non-zero, block 1: all-zero, block 2: non-zero.
    assert!(d[0..SPARSE_BLOCK].iter().any(|&b| b != 0), "block 0 has data");
    assert!(d[SPARSE_BLOCK..2 * SPARSE_BLOCK].iter().all(|&b| b == 0), "block 1 is a hole");
    assert!(d[2 * SPARSE_BLOCK..3 * SPARSE_BLOCK].iter().any(|&b| b != 0), "block 2 has data");
}

#[test]
fn incrementing_pattern_has_no_zero_bytes() {
    assert!(gen_pattern("incrementing", SPARSE_BLOCK).unwrap().iter().all(|&b| b != 0));
}

#[test]
fn unknown_pattern_errors() {
    assert!(gen_pattern("bogus", 16).is_err());
}
