//! Run lists: decoding, encoding and addresses.

use fs_ntfs::data_runs::{
    decode_runs, encode_runs, range_has_hole_or_past_end, sign_extend_i64, vcn_to_lcn, DataRun,
};

// --- sign_extend_i64 ---------------------------------------------------

#[test]
fn sign_extend_positive_byte_unchanged() {
    // 0x64 = 100; high bit clear → no extension needed.
    assert_eq!(sign_extend_i64(0x64, 1), 100);
}

#[test]
fn sign_extend_negative_byte_fills_upper_bits() {
    // 0xF6 = 246 unsigned; high bit set → sign-extend → -10.
    assert_eq!(sign_extend_i64(0xF6, 1), -10);
}

#[test]
fn sign_extend_two_byte_negative() {
    // 0xFF9C = 65436 unsigned; should extend to -100.
    assert_eq!(sign_extend_i64(0xFF9C, 2), -100);
}

#[test]
fn sign_extend_full_eight_bytes_is_identity() {
    // 8-byte values already fill i64 — extension is a no-op.
    assert_eq!(sign_extend_i64(-42i64, 8), -42);
    assert_eq!(sign_extend_i64(42, 8), 42);
}

// --- decode_runs: happy paths ------------------------------------------

#[test]
fn decode_empty_terminator_returns_no_runs() {
    assert_eq!(decode_runs(&[0x00]).unwrap(), Vec::<DataRun>::new());
}

#[test]
fn decode_single_run_one_cluster_at_lcn_0() {
    // header 0x11 = 1 lcn byte, 1 length byte. length=1, lcn=0.
    let bytes = [0x11, 0x01, 0x00, 0x00];
    let runs = decode_runs(&bytes).unwrap();
    assert_eq!(runs.len(), 1);
    assert_eq!(
        runs[0],
        DataRun {
            starting_vcn: 0,
            length: 1,
            lcn: Some(0),
        }
    );
}

#[test]
fn decode_two_runs_with_positive_lcn_delta() {
    // run0: length=2, lcn=5; run1: length=3, lcn=5+10=15.
    let bytes = [0x11, 0x02, 0x05, 0x11, 0x03, 0x0A, 0x00];
    let runs = decode_runs(&bytes).unwrap();
    assert_eq!(runs.len(), 2);
    assert_eq!(runs[0].starting_vcn, 0);
    assert_eq!(runs[0].length, 2);
    assert_eq!(runs[0].lcn, Some(5));
    assert_eq!(runs[1].starting_vcn, 2);
    assert_eq!(runs[1].length, 3);
    assert_eq!(runs[1].lcn, Some(15));
}

#[test]
fn decode_sparse_run_lcn_is_none() {
    // header 0x01 = 0 lcn bytes, 1 length byte ⇒ sparse hole.
    let bytes = [0x01, 0x05, 0x00];
    let runs = decode_runs(&bytes).unwrap();
    assert_eq!(runs.len(), 1);
    assert_eq!(runs[0].length, 5);
    assert_eq!(runs[0].lcn, None);
}

#[test]
fn decode_negative_lcn_delta_sign_extends() {
    // run0: length=2, lcn=100 (1 byte 0x64).
    // run1: length=2, lcn=100 + (-10) = 90 (1 signed byte 0xF6).
    let bytes = [0x11, 0x02, 0x64, 0x11, 0x02, 0xF6, 0x00];
    let runs = decode_runs(&bytes).unwrap();
    assert_eq!(runs[1].lcn, Some(90));
}

// --- decode_runs: errors -----------------------------------------------

#[test]
fn decode_rejects_zero_length_bytes_header() {
    // header 0x10 = 1 lcn byte, 0 length bytes.
    let err = decode_runs(&[0x10, 0x00]).unwrap_err();
    assert!(err.contains("length-byte-count is zero"), "{err}");
}

#[test]
fn decode_rejects_zero_cluster_length() {
    // header 0x11, length-byte = 0 ⇒ run of zero clusters.
    let err = decode_runs(&[0x11, 0x00, 0x05]).unwrap_err();
    assert!(err.contains("zero-cluster length"), "{err}");
}

#[test]
fn decode_rejects_header_extending_past_data() {
    // header says we need 2+2 bytes but only 1 follows.
    let err = decode_runs(&[0x22, 0xFF]).unwrap_err();
    assert!(err.contains("extends past data"), "{err}");
}

#[test]
fn decode_rejects_run_landing_at_negative_absolute_lcn() {
    // First run sets prev_lcn=10. Second run delta = -100 ⇒ -90.
    let bytes = [0x11, 0x01, 0x0A, 0x11, 0x01, 0x9C, 0x00];
    let err = decode_runs(&bytes).unwrap_err();
    assert!(err.contains("negative absolute LCN"), "{err}");
}

// --- encode_runs: happy paths + round-trip -----------------------------

#[test]
fn encode_decode_round_trip_single_run() {
    let runs = vec![DataRun {
        starting_vcn: 0,
        length: 7,
        lcn: Some(42),
    }];
    let encoded = encode_runs(&runs).unwrap();
    let decoded = decode_runs(&encoded).unwrap();
    assert_eq!(decoded, runs);
}

#[test]
fn encode_decode_round_trip_multi_run_with_sparse() {
    let runs = vec![
        DataRun {
            starting_vcn: 0,
            length: 4,
            lcn: Some(100),
        },
        DataRun {
            starting_vcn: 4,
            length: 8,
            lcn: None,
        },
        DataRun {
            starting_vcn: 12,
            length: 2,
            lcn: Some(120),
        },
    ];
    let encoded = encode_runs(&runs).unwrap();
    let decoded = decode_runs(&encoded).unwrap();
    assert_eq!(decoded, runs);
}

#[test]
fn encode_rejects_vcn_gap_between_runs() {
    let runs = vec![
        DataRun {
            starting_vcn: 0,
            length: 2,
            lcn: Some(10),
        },
        DataRun {
            starting_vcn: 5,
            length: 1,
            lcn: Some(20),
        },
    ];
    let err = encode_runs(&runs).unwrap_err();
    assert!(err.contains("starts at VCN"), "{err}");
}

#[test]
fn encode_rejects_zero_length_run() {
    let runs = vec![DataRun {
        starting_vcn: 0,
        length: 0,
        lcn: Some(0),
    }];
    let err = encode_runs(&runs).unwrap_err();
    assert!(err.contains("zero length"), "{err}");
}

// Length 0x8000 (= 32768) takes 3 bytes, not 2: sign-extension would read
// the 2 bytes back as -32768.
#[test]
fn encode_length_32768_uses_three_bytes_not_two() {
    let runs = vec![DataRun {
        starting_vcn: 0,
        length: 0x8000,
        lcn: Some(0),
    }];
    let encoded = encode_runs(&runs).unwrap();
    // header byte + 3 length bytes (sign-extended) + 1 lcn byte + 0x00.
    // header low nibble = 3 (length bytes), high nibble = 1 (lcn byte).
    assert_eq!(encoded[0], 0x13, "header was {:#04x}", encoded[0]);
    // Round-trip must give back exactly 0x8000.
    let decoded = decode_runs(&encoded).unwrap();
    assert_eq!(decoded[0].length, 0x8000);
}

// --- vcn_to_lcn --------------------------------------------------------

#[test]
fn vcn_to_lcn_inside_first_run() {
    let runs = vec![DataRun {
        starting_vcn: 0,
        length: 10,
        lcn: Some(100),
    }];
    assert_eq!(vcn_to_lcn(&runs, 0), Some(100));
    assert_eq!(vcn_to_lcn(&runs, 5), Some(105));
    assert_eq!(vcn_to_lcn(&runs, 9), Some(109));
}

#[test]
fn vcn_to_lcn_in_sparse_hole_is_none() {
    let runs = vec![
        DataRun {
            starting_vcn: 0,
            length: 2,
            lcn: Some(100),
        },
        DataRun {
            starting_vcn: 2,
            length: 5,
            lcn: None,
        },
    ];
    assert_eq!(vcn_to_lcn(&runs, 1), Some(101));
    assert_eq!(vcn_to_lcn(&runs, 3), None);
    // Past end of all runs.
    assert_eq!(vcn_to_lcn(&runs, 100), None);
}

// --- range_has_hole_or_past_end ----------------------------------------

#[test]
fn range_fully_inside_allocated_run_has_no_hole() {
    let runs = vec![DataRun {
        starting_vcn: 0,
        length: 10,
        lcn: Some(100),
    }];
    assert!(!range_has_hole_or_past_end(&runs, 2, 5));
}

#[test]
fn range_straddling_sparse_run_has_hole() {
    let runs = vec![
        DataRun {
            starting_vcn: 0,
            length: 4,
            lcn: Some(100),
        },
        DataRun {
            starting_vcn: 4,
            length: 2,
            lcn: None,
        },
    ];
    assert!(range_has_hole_or_past_end(&runs, 3, 2));
}

#[test]
fn range_past_end_of_runs_is_hole() {
    let runs = vec![DataRun {
        starting_vcn: 0,
        length: 4,
        lcn: Some(100),
    }];
    assert!(range_has_hole_or_past_end(&runs, 2, 5));
}

// --- more edge cases ----------------------------------------------------

#[test]
fn encode_negative_lcn_delta_round_trips() {
    // run0 at LCN 100, run1 at LCN 90 (delta = -10, signed 1 byte).
    let runs = vec![
        DataRun {
            starting_vcn: 0,
            length: 2,
            lcn: Some(100),
        },
        DataRun {
            starting_vcn: 2,
            length: 3,
            lcn: Some(90),
        },
    ];
    let encoded = encode_runs(&runs).unwrap();
    let decoded = decode_runs(&encoded).unwrap();
    assert_eq!(decoded, runs);
}

#[test]
fn decode_no_terminator_tolerates_buffer_end() {
    // A single run with no 0x00 terminator: the length of the attribute may
    // bound the list.
    let bytes = [0x11u8, 0x01, 0x05]; // header + length=1 + lcn=5, no 0x00
    let runs = decode_runs(&bytes).unwrap();
    assert_eq!(runs.len(), 1);
    assert_eq!(runs[0].lcn, Some(5));
}

#[test]
fn encode_large_lcn_requires_five_byte_offset() {
    // LCN = 2^32 + 1. The offset field must use 5 bytes to represent it.
    let lcn: u64 = (1u64 << 32) + 1;
    let runs = vec![DataRun {
        starting_vcn: 0,
        length: 1,
        lcn: Some(lcn),
    }];
    let encoded = encode_runs(&runs).unwrap();
    // Decode the header byte to check lcn_bytes.
    let lcn_bytes = (encoded[0] >> 4) as usize;
    assert!(
        lcn_bytes >= 5,
        "LCN > 2^32 needs at least 5 bytes; got {lcn_bytes}"
    );
    let decoded = decode_runs(&encoded).unwrap();
    assert_eq!(decoded[0].lcn, Some(lcn));
}

#[test]
fn encode_large_run_length_requires_five_bytes() {
    // Run length = 2^32 + 1. Must not be truncated to 32 bits.
    let big_len: u64 = (1u64 << 32) + 1;
    let runs = vec![DataRun {
        starting_vcn: 0,
        length: big_len,
        lcn: Some(0),
    }];
    let encoded = encode_runs(&runs).unwrap();
    let length_bytes = (encoded[0] & 0x0F) as usize;
    assert!(
        length_bytes >= 5,
        "length > 2^32 needs at least 5 bytes; got {length_bytes}"
    );
    let decoded = decode_runs(&encoded).unwrap();
    assert_eq!(decoded[0].length, big_len);
}

#[test]
fn vcn_to_lcn_past_end_of_all_runs_returns_none() {
    let runs = vec![DataRun {
        starting_vcn: 0,
        length: 5,
        lcn: Some(100),
    }];
    // VCN 5 is past the end (run covers [0..5)).
    assert_eq!(vcn_to_lcn(&runs, 5), None);
    assert_eq!(vcn_to_lcn(&runs, 100), None);
}

#[test]
fn vcn_to_lcn_exactly_at_run_end_is_none() {
    // Run covers VCNs [2..7). VCN 7 is not covered.
    let runs = vec![DataRun {
        starting_vcn: 2,
        length: 5,
        lcn: Some(50),
    }];
    assert_eq!(vcn_to_lcn(&runs, 6), Some(54)); // last VCN in run
    assert_eq!(vcn_to_lcn(&runs, 7), None); // one past end
}

#[test]
fn vcn_to_lcn_in_second_of_two_runs() {
    let runs = vec![
        DataRun {
            starting_vcn: 0,
            length: 4,
            lcn: Some(10),
        },
        DataRun {
            starting_vcn: 4,
            length: 6,
            lcn: Some(20),
        },
    ];
    assert_eq!(vcn_to_lcn(&runs, 3), Some(13)); // last in first run
    assert_eq!(vcn_to_lcn(&runs, 4), Some(20)); // first in second run
    assert_eq!(vcn_to_lcn(&runs, 9), Some(25)); // last in second run
}

#[test]
fn range_has_hole_empty_run_list_is_always_hole() {
    // No runs at all — every range is "past end".
    assert!(range_has_hole_or_past_end(&[], 0, 1));
    assert!(range_has_hole_or_past_end(&[], 0, 100));
}

#[test]
fn range_has_hole_exact_coverage_has_no_hole() {
    // Range exactly matches one run — no hole.
    let runs = vec![DataRun {
        starting_vcn: 0,
        length: 8,
        lcn: Some(50),
    }];
    assert!(!range_has_hole_or_past_end(&runs, 0, 8));
}

#[test]
fn encode_roundtrip_all_single_byte_lengths_1_to_7() {
    // Run lengths 1..=7 each fit in 1 byte. Verify round-trip for all.
    for length in 1u64..=7 {
        let runs = vec![DataRun {
            starting_vcn: 0,
            length,
            lcn: Some(1),
        }];
        let encoded = encode_runs(&runs).unwrap();
        let decoded = decode_runs(&encoded).unwrap();
        assert_eq!(decoded[0].length, length, "length={length}");
    }
}

#[test]
fn encode_roundtrip_boundary_lengths() {
    // Boundary values that force 2-byte vs 3-byte length encoding.
    for length in [127u64, 128, 255, 256, 32767, 32768] {
        let runs = vec![DataRun {
            starting_vcn: 0,
            length,
            lcn: Some(1),
        }];
        let encoded = encode_runs(&runs).unwrap();
        let decoded = decode_runs(&encoded).unwrap();
        assert_eq!(decoded[0].length, length, "boundary length={length}");
    }
}

#[test]
fn encode_five_contiguous_runs_roundtrip() {
    let runs: Vec<DataRun> = (0..5)
        .map(|i| DataRun {
            starting_vcn: i * 10,
            length: 10,
            lcn: Some(100 + i * 15),
        })
        .collect();
    let encoded = encode_runs(&runs).unwrap();
    let decoded = decode_runs(&encoded).unwrap();
    assert_eq!(decoded, runs);
}

#[test]
fn encode_alternating_sparse_and_real_runs() {
    let runs = vec![
        DataRun {
            starting_vcn: 0,
            length: 3,
            lcn: Some(50),
        },
        DataRun {
            starting_vcn: 3,
            length: 2,
            lcn: None,
        }, // sparse
        DataRun {
            starting_vcn: 5,
            length: 4,
            lcn: Some(80),
        },
        DataRun {
            starting_vcn: 9,
            length: 1,
            lcn: None,
        }, // sparse
        DataRun {
            starting_vcn: 10,
            length: 2,
            lcn: Some(200),
        },
    ];
    let encoded = encode_runs(&runs).unwrap();
    let decoded = decode_runs(&encoded).unwrap();
    assert_eq!(decoded, runs);
}

#[test]
fn runs_need_not_begin_at_zero() {
    let runs = vec![
        DataRun {
            starting_vcn: 10,
            length: 5,
            lcn: Some(100),
        },
        DataRun {
            starting_vcn: 20,
            length: 5,
            lcn: Some(200),
        },
    ];
    assert!(!range_has_hole_or_past_end(&runs, 10, 5));
    assert!(range_has_hole_or_past_end(&runs, 9, 2));
    assert!(range_has_hole_or_past_end(&runs, 12, 10));
    assert!(!range_has_hole_or_past_end(&runs, 21, 4));
}
