use ferrotherm::sourlas::{splitmix, Code, Invalid};

fn message(k: usize, seed: u64) -> Vec<i8> {
    (0..k).map(|i| if splitmix(seed ^ i as u64) & 1 == 1 { 1 } else { -1 }).collect()
}

/// SplitMix64, written out independently.
fn reference_splitmix(mut z: u64) -> u64 {
    z = z.wrapping_add(0x9E37_79B9_7F4A_7C15);
    let mut x = z;
    x = (x ^ (x >> 30)).wrapping_mul(0xBF58_476D_1CE4_E5B9);
    x = (x ^ (x >> 27)).wrapping_mul(0x94D0_49BB_1331_11EB);
    x ^ (x >> 31)
}

#[test]
fn splitmix_is_the_published_mixer() {
    for z in [0u64, 1, 42, u64::MAX, 0x1234_5678_9abc_def0] {
        assert_eq!(splitmix(z), reference_splitmix(z));
    }
    assert_eq!(splitmix(0), 0xE220_A839_7B1D_CDAF);
}

#[test]
fn encoding_is_a_product_over_each_check() {
    let code = Code::random(7, 11, 3, 1).expect("a code");
    let xi = message(7, 5);
    let word = code.encode(&xi).expect("length");
    assert_eq!(word.len(), 11);
    for (s, &j) in code.checks.iter().zip(&word) {
        let prod: i8 = s.iter().map(|&i| xi[i]).product();
        assert_eq!(j, prod);
    }
    assert_eq!(code.m(), 11);
}

#[test]
fn too_few_subsets_are_refused() {
    assert_eq!(Code::random(4, 7, 3, 1), Err(Invalid::TooFewSubsets));
    assert!(Code::random(4, 4, 3, 1).is_ok(), "C(4,3) = 4 subsets make exactly 4 checks");
    assert_eq!(Code::random(5, 11, 2, 3), Err(Invalid::TooFewSubsets));
}

#[test]
fn a_random_code_has_distinct_sorted_checks_of_the_right_size() {
    for (k, m, c, seed) in [(7usize, 11usize, 3usize, 1u64), (8, 12, 2, 21), (6, 20, 3, 4), (5, 10, 2, 3)] {
        let code = Code::random(k, m, c, seed).expect("a code");
        assert_eq!(code.k, k);
        assert_eq!(code.checks.len(), m);
        for s in &code.checks {
            assert_eq!(s.len(), c);
            assert!(s.windows(2).all(|w| w[0] < w[1]));
            assert!(s.iter().all(|&i| i < k));
        }
        for a in 0..m {
            for b in (a + 1)..m {
                assert_ne!(code.checks[a], code.checks[b]);
            }
        }
        assert_eq!(code, Code::random(k, m, c, seed).unwrap(), "deterministic in the seed");
    }
}

#[test]
fn the_message_bits_lead_the_codeword() {
    let code = Code::random(5, 6, 2, 3).expect("a code");
    let with = code.clone().with_message_bits();
    assert_eq!(with.k, 5);
    assert_eq!(with.m(), 11);
    for i in 0..5 {
        assert_eq!(with.checks[i], vec![i]);
    }
    assert_eq!(&with.checks[5..], &code.checks[..]);
    let xi = message(5, 6);
    let word = with.encode(&xi).unwrap();
    assert_eq!(&word[..5], &xi[..]);
    assert_eq!(&word[5..], &code.encode(&xi).unwrap()[..]);
}

#[test]
fn a_word_of_the_wrong_length_is_refused() {
    let code = Code::random(4, 3, 2, 9).unwrap();
    assert_eq!(code.encode(&[1, -1, 1]), Err(Invalid::WrongLength { want: 4, got: 3 }));
}

#[test]
fn refusals_read_as_sentences() {
    assert_eq!(Invalid::WrongLength { want: 4, got: 3 }.message(), "expected a word of 4 bits, got 3");
    assert_eq!(Invalid::TooManyBits { k: 20 }.message(), "20 message bits exceed the exact limit of 16");
    assert_eq!(Invalid::NotPairwise { c: 3 }.message(), "a check over 3 bits is not a pair");
    assert_eq!(Invalid::TooFewSubsets.message(), "not enough distinct subsets for that many checks");
}

#[test]
fn small_codes_are_the_ones_the_stream_draws() {
    assert_eq!(Code::random(4, 7, 3, 1), Err(Invalid::TooFewSubsets));
    assert_eq!(Code::random(3, 1, 3, 9), Ok(Code { k: 3, checks: vec![vec![0, 1, 2]] }));
    assert_eq!(Code::random(7, 11, 3, 1).unwrap().m(), 11);
}

#[test]
fn only_singles_and_pairs_make_an_ising_posterior() {
    let code = Code { k: 3, checks: vec![vec![0], vec![0, 1], vec![0, 1, 2], vec![]] };
    assert_eq!(code.check_pairwise(&[1, -1]), Err(Invalid::WrongLength { want: 4, got: 2 }));
    assert_eq!(code.check_pairwise(&[1, -1, 1, 1]), Err(Invalid::NotPairwise { c: 3 }));
    let pairs = Code { k: 3, checks: vec![vec![0], vec![1, 2]] };
    assert_eq!(pairs.check_pairwise(&[1, -1]), Ok(()));
    let empty_check = Code { k: 3, checks: vec![vec![1], vec![]] };
    assert_eq!(empty_check.check_pairwise(&[1, 1]), Err(Invalid::NotPairwise { c: 0 }));
}
