use ferrotherm::graph::Graph;
use ferrotherm::receipt::{check_answer, digest, Ledger, Misfit, ReceiptText};

fn ring(n: usize, j: impl Fn(usize) -> f64, h: f64) -> Graph {
    let mut offset = vec![0usize];
    let mut nbr = Vec::new();
    let mut w = Vec::new();
    for i in 0..n {
        let (a, b) = ((i + n - 1) % n, (i + 1) % n);
        // The coupling (i, i+1) has weight j(i); row i holds its two neighbours in order.
        let mut row = vec![(a as u32, j(a).to_bits()), (b as u32, j(i).to_bits())];
        row.sort();
        for (x, bits) in row {
            nbr.push(x);
            w.push(bits);
        }
        offset.push(nbr.len());
    }
    Graph::from_csr(n, vec![h.to_bits(); n], offset, nbr, w).unwrap()
}

/// FNV-1a over the canonical words, written independently.
fn reference(g: &Graph) -> u64 {
    let mut h: u64 = 0xcbf2_9ce4_8422_2325;
    let mut eat = |x: u64| {
        for b in x.to_le_bytes() {
            h ^= u64::from(b);
            h = h.wrapping_mul(0x0000_0100_0000_01b3);
        }
    };
    eat(g.n as u64);
    for i in 0..g.n {
        eat(g.h_bits[i]);
        for k in g.offset[i]..g.offset[i + 1] {
            let j = g.nbr[k] as usize;
            if j > i {
                eat(i as u64);
                eat(j as u64);
                eat(g.w_bits[k]);
            }
        }
    }
    h
}

#[test]
fn the_digest_separates_models_that_differ_by_one_ulp() {
    let a = ring(8, |_| 1.0, 0.2);
    let b = ring(8, |i| if i == 0 { f64::from_bits(1.0f64.to_bits() + 1) } else { 1.0 }, 0.2);
    assert_ne!(digest(&a), digest(&b), "one ulp is a different model");
    assert_eq!(digest(&a), digest(&ring(8, |_| 1.0, 0.2)));
}

#[test]
fn the_digest_is_fnv_1a_over_the_canonical_words() {
    for g in [ring(8, |_| 1.0, 0.2), ring(5, |i| i as f64 - 2.0, -0.5), ring(3, |_| 0.25, 0.0)] {
        assert_eq!(digest(&g), reference(&g));
    }
    let empty = Graph::from_csr(0, vec![], vec![0], vec![], vec![]).unwrap();
    assert_eq!(digest(&empty), reference(&empty));
    // Eight zero bytes from the offset basis.
    let mut h: u64 = 0xcbf2_9ce4_8422_2325;
    for _ in 0..8 {
        h = h.wrapping_mul(0x0000_0100_0000_01b3);
    }
    assert_eq!(digest(&empty), h);
}

fn sample(cost: Ledger, method: &str, seed: u64, bound: Option<&str>) -> ReceiptText {
    ReceiptText {
        model: 0x00c0_ffee_1234_abcd,
        state: vec![1, -1, -1, 1, 1, 1, -1, 1, -1, -1],
        energy: format!("{:?}", -14.6f64),
        bound: bound.map(|b| b.to_string()),
        cost,
        method: method.to_string(),
        seed,
    }
}

#[test]
fn a_receipt_survives_a_round_trip_through_text() {
    let cost = Ledger { samples: 12_345, reads: 67, writes: 8 };
    let r = sample(cost, "exact::ground_state", 7, Some(&format!("{:?}", -14.0f64)));
    let text = r.to_text();
    let back = ReceiptText::parse(&text).expect("its own output must parse");
    assert_eq!(back, r);
    let e: f64 = back.energy.parse().unwrap();
    assert_eq!(e.to_bits(), (-14.6f64).to_bits(), "the energy lost bits in transit");
    let b: f64 = back.bound.unwrap().parse().unwrap();
    assert_eq!(b.to_bits(), (-14.0f64).to_bits(), "the bound lost bits in transit");
}

#[test]
fn the_text_form_is_one_field_per_line() {
    let r = sample(Ledger { samples: 1, reads: 2, writes: 3 }, "exact", 1, None);
    assert_eq!(
        r.to_text(),
        "receipt 1\nmodel 00c0ffee1234abcd\nmethod exact\nseed 1\nenergy -14.6\ncost 1 2 3\nstate +--+++-+--\n"
    );
}

#[test]
fn malformed_text_is_refused_rather_than_guessed() {
    let good = sample(Ledger::default(), "exact", 1, None).to_text();
    assert!(ReceiptText::parse("model deadbeef\n").is_err(), "no header");
    assert!(ReceiptText::parse("receipt 2\nmodel 0\n").is_err(), "a version this cannot read");
    assert!(ReceiptText::parse(&good.replace("state +", "state ?")).is_err(), "a spin that is not a spin");
    assert!(ReceiptText::parse(&format!("{good}provenance whoever\n")).is_err(), "an unknown field is an error");
    assert!(ReceiptText::parse(&good.replace("energy", "enrgy")).is_err(), "a required field renamed away");
    let without_state: String = good.lines().filter(|l| !l.starts_with("state")).collect::<Vec<_>>().join("\n");
    assert!(ReceiptText::parse(&without_state).is_err(), "no state");
    let decorated = format!("# written by a test\n\n{good}\n");
    assert!(ReceiptText::parse(&decorated).is_ok());
}

#[test]
fn the_ledger_round_trips_with_the_answer() {
    let cost = Ledger { samples: 9_000_000_000, reads: 12, writes: 3 };
    let r = sample(cost, "tempering", 42, None);
    let back = ReceiptText::parse(&r.to_text()).unwrap();
    assert_eq!(back.cost.samples, 9_000_000_000);
    assert_eq!(back.cost.reads, 12);
    assert_eq!(back.cost.writes, 3);
    assert_eq!(back.seed, 42);
    assert_eq!(back.method, "tempering");
}

#[test]
fn each_refusal_names_its_line_and_its_reason() {
    let err = |t: &str| ReceiptText::parse(t).unwrap_err();
    let e = err("receipt 1\nmodel xyz\n");
    assert_eq!((e.line, e.message.as_str()), (2, "bad model digest"));
    let e = err("receipt 1\nmodel\n");
    assert_eq!((e.line, e.message.as_str()), (2, "bad model"));
    let e = err("\n  receipt 1\nstate ++-x+\n");
    assert_eq!((e.line, e.message.as_str()), (3, "`x` is not a spin; use + or -"));
    let e = err("receipt 1\n\tcolour blue\n");
    assert_eq!((e.line, e.message.as_str()), (2, "unknown field `colour`"));
    let e = err("receipt 1\ncost 1 2\n");
    assert_eq!((e.line, e.message.as_str()), (2, "bad cost"));
    let e = err("receipt 1\nenergy 1.2.3\n");
    assert_eq!((e.line, e.message.as_str()), (2, "bad energy"));
    let e = err("receipt 1\nseed 18446744073709551616\n");
    assert_eq!((e.line, e.message.as_str()), (2, "bad seed"));
    let e = err("model 1\n");
    assert_eq!((e.line, e.message.as_str()), (1, "no `receipt 1` header"));
    let e = err("receipt 1\nmodel 1\nstate +\nenergy 0\nmethod m\n");
    assert_eq!((e.line, e.message.as_str()), (0, "no seed"));
}

#[test]
fn fields_read_as_their_standard_library_parsers_read_them() {
    let base = "receipt 1\nmodel +FF\nstate -\nmethod  a   b \nseed +18446744073709551615\ncost 0 0 0\n";
    for energy in ["1", "-1.", ".5", "+1e10", "1E-3", "inf", "-Infinity", "NaN", "6.02e+23"] {
        let r = ReceiptText::parse(&format!("{base}energy {energy}\n")).unwrap();
        assert_eq!(r.energy, energy);
        assert!(energy.parse::<f64>().is_ok(), "{energy}");
        assert_eq!(r.model, 255);
        assert_eq!(r.seed, u64::MAX);
        assert_eq!(r.method, "a b");
        assert_eq!(r.state, vec![-1]);
    }
    for energy in [".", "e5", "1e", "1e+", "--1", "infin", "0x10", "1_0"] {
        assert!(ReceiptText::parse(&format!("{base}energy {energy}\n")).is_err(), "{energy}");
        assert!(energy.parse::<f64>().is_err(), "{energy}");
    }
}

/// Where a receipt cannot be written faithfully, reading it back does not give it: an empty state
/// writes a `state` line with nothing after it, and a method's runs of spaces collapse.
#[test]
fn a_receipt_that_cannot_be_written_faithfully_does_not_come_back() {
    let mut r = sample(Ledger::default(), "exact", 1, None);
    r.state = Vec::new();
    let e = ReceiptText::parse(&r.to_text()).unwrap_err();
    assert_eq!(e.line, 7);
    assert_eq!(e.message, "bad state");

    let r = sample(Ledger::default(), "two  words", 1, None);
    let back = ReceiptText::parse(&r.to_text()).unwrap();
    assert_eq!(back.method, "two words");

    let mut r = sample(Ledger::default(), "exact", 1, None);
    r.state = vec![1, 0, -1];
    let back = ReceiptText::parse(&r.to_text()).unwrap();
    assert_eq!(back.state, vec![1, -1, -1]);
}

/// Every field of a receipt with a bound, a long seed and an empty method comes back as written.
#[test]
fn an_unusual_receipt_still_round_trips() {
    let cost = Ledger { samples: u64::MAX, reads: 0, writes: 10 };
    let mut r = sample(cost, "", u64::MAX, Some("inf"));
    r.model = 0;
    r.energy = "-1e-300".to_string();
    let back = ReceiptText::parse(&r.to_text()).unwrap();
    assert_eq!(back, r);
}

#[test]
fn an_answer_is_checked_digest_first_then_length_then_spins() {
    let one = 1.0f64.to_bits();
    let g = Graph::from_csr(3, vec![0; 3], vec![0, 1, 3, 4], vec![1, 0, 2, 1], vec![one; 4]).unwrap();
    let d = digest(&g);
    assert_eq!(check_answer(d, &[1, -1, 1], &g), Ok(()));
    assert_eq!(check_answer(d ^ 1, &[1, -1], &g), Err(Misfit::DifferentModel { receipt: d ^ 1, graph: d }));
    assert_eq!(check_answer(d, &[1, -1], &g), Err(Misfit::NotAState { got: 2, want: 3 }));
    assert_eq!(check_answer(d, &[1, 0, 2], &g), Err(Misfit::NotASpin { at: 1, got: 0 }));
}
