use bubblebabble::{bubblebabble, stablebabble};

#[test]
fn test_bubblebabble() {
    let tests: [(&[u8], &str); 5] = [
        (
            &[0, 0, 0, 0, 0, 0, 0, 0, 0, 0, 0, 0, 0, 0, 0, 0],
            "xebab-bybab-bebub-bybib-bebib-bybub-bebab-bybab-bexux",
        ),
        (
            &[0, 0, 0, 0, 0, 0, 0, 0, 0, 0, 0, 0, 0, 0, 0, 1],
            "xebab-bybab-bebub-bybib-bebib-bybub-bebab-bybab-cixux",
        ),
        (
            &[0, 0, 0, 0, 0, 0, 0, 0, 0, 0, 0, 0, 0, 0, 0, 2],
            "xebab-bybab-bebub-bybib-bebib-bybub-bebab-bybab-doxux",
        ),
        (
            // the address 2a0a:e5c0:2:5:5cf9:ccc8:7c48:97c0
            &[
                0x2a, 0x0a, 0xe5, 0xc0, 0, 0x2, 0, 0x5, 0x5c, 0xf9, 0xcc, 0xc8, 0x7c, 0x48, 0x97,
                0xc0,
            ],
            "xepib-panus-bubub-dubyb-hilyz-nefas-myzug-mihos-bexux",
        ),
        (
            // the address fe80::4685:ff:fe76:1722
            &[
                0xfe, 0x80, 0, 0, 0, 0, 0, 0, 0x46, 0x85, 0, 0xff, 0xfe, 0x76, 0x17, 0x22,
            ],
            "xuzim-bobab-bobib-bobab-bucum-hibiz-zuzil-kyhed-duxix",
        ),
    ];

    for case in tests.iter() {
        assert_eq!(bubblebabble(case.0), case.1);
    }
}

#[test]
fn test_stablebabble() {
    let tests: [(&[u8], &str); 5] = [
        (
            &[0, 0, 0, 0, 0, 0, 0, 0, 0, 0, 0, 0, 0, 0, 0, 0],
            "xebab-7wa-baxax",
        ),
        (
            &[0, 0, 0, 0, 0, 0, 0, 0, 0, 0, 0, 0, 0, 0, 0, 1],
            "xebab-7wa-caxax",
        ),
        (
            &[0, 0, 0, 0, 0, 0, 0, 0, 0, 0, 0, 0, 0, 0, 0, 2],
            "xebab-7wa-daxax",
        ),
        (
            // the address 2a0a:e5c0:2:5:5cf9:ccc8:7c48:97c0
            &[
                0x2a, 0x0a, 0xe5, 0xc0, 0, 0x2, 0, 0x5, 0x5c, 0xf9, 0xcc, 0xc8, 0x7c, 0x48, 0x97,
                0xc0,
            ],
            "xepib-pones-wa-dabab-helaz-nofas-mezag-mihos-baxax",
        ),
        (
            // the address fe80::4685:ff:fe76:1722
            &[
                0xfe, 0x80, 0, 0, 0, 0, 0, 0, 0x46, 0x85, 0, 0xff, 0xfe, 0x76, 0x17, 0x22,
            ],
            "xuzim-3wa-becim-habaz-zozil-kahod-daxax",
        ),
    ];

    for case in tests.iter() {
        assert_eq!(stablebabble(case.0), case.1);
    }
}

#[test]
fn empty_input() {
    assert_eq!(bubblebabble(&[]), "xexax");
    assert_eq!(stablebabble(&[]), "xexax");
}

#[test]
fn single_byte_odd_tail() {
    assert_eq!(bubblebabble(&[0]), "xebax");
    assert_eq!(stablebabble(&[0]), "xebax");
}

#[test]
fn two_digit_run_count() {
    let zeros = [0u8; 22];
    assert_eq!(stablebabble(&zeros), "xebab-10wa-baxax");
}

#[test]
fn deterministic() {
    let data: [u8; 7] = [1, 2, 3, 4, 5, 6, 7];
    assert_eq!(bubblebabble(&data), bubblebabble(&data));
    assert_eq!(stablebabble(&data), stablebabble(&data));
}

#[test]
fn framed_by_x() {
    let samples: [&[u8]; 5] = [&[], &[0x41], &[0xff, 0x00], &[1, 2, 3], &[9, 8, 7, 6, 5]];
    for bytes in samples.iter() {
        for out in [bubblebabble(bytes), stablebabble(bytes)].iter() {
            assert!(out.starts_with('x'));
            assert!(out.ends_with('x'));
        }
    }
}

#[test]
fn syllable_count_is_half_len_plus_one() {
    let samples: [&[u8]; 5] = [&[], &[0x41], &[0xff, 0x00], &[1, 2, 3], &[9, 8, 7, 6, 5]];
    for bytes in samples.iter() {
        let out = bubblebabble(bytes);
        assert_eq!(out.split('-').count(), bytes.len() / 2 + 1);
    }
}

#[test]
fn stable_words_depend_on_own_bytes_only() {
    // Two inputs agreeing on the second byte pair: every letter derived from
    // that pair matches, whatever came before.
    let a = stablebabble(&[1, 2, 3, 4]);
    let b = stablebabble(&[9, 10, 3, 4]);
    let a_tokens: Vec<&str> = a.split('-').collect();
    let b_tokens: Vec<&str> = b.split('-').collect();
    assert_eq!(a_tokens.len(), 3);
    assert_eq!(b_tokens.len(), 3);
    // the middle token's tail comes from bytes 2 and 3 alone
    assert_eq!(a_tokens[1][1..], b_tokens[1][1..]);
    // the final token comes from byte 3 and the terminal syllable alone
    assert_eq!(a_tokens[2], b_tokens[2]);
}

#[test]
fn no_null_word_in_stable_output() {
    let samples: [&[u8]; 4] = [
        &[0, 0, 0, 0, 0, 0],
        &[0, 0, 0, 0, 0, 0, 0, 0, 0, 0, 0, 0, 0, 0, 0, 0],
        &[1, 0, 0, 0, 0, 0, 0, 2],
        &[0xba, 0xba, 0xb0, 0x00],
    ];
    for bytes in samples.iter() {
        assert!(!stablebabble(bytes).contains("babab"));
    }
}

#[test]
fn run_collapses_to_counted_word() {
    // Eight zero bytes: the raw stable string holds a run of three equal
    // "babab" words; they collapse to one counted word.
    assert_eq!(stablebabble(&[0, 0, 0, 0, 0, 0, 0, 0]), "xebab-3wa-baxax");
    // A run of one never gets a count prefix.
    assert_eq!(stablebabble(&[0, 0]), "xebab-baxax");
}
