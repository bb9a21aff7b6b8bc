use newbase60::{num_to_sxg, sxg_to_num};

const ALPHABET: &str = "0123456789ABCDEFGHJKLMNPQRSTUVWXYZ_abcdefghijkmnopqrstuvwxyz";

#[test]
fn known_vectors() {
    assert_eq!(num_to_sxg(1337), "NH".to_string());
    assert_eq!(sxg_to_num("NH"), Some(1337));
    assert_eq!(num_to_sxg(60), "10".to_string());
    assert_eq!(sxg_to_num("10"), Some(60));
    assert_eq!(sxg_to_num("asc"), Some(129157));
}

#[test]
fn zero_handling() {
    assert_eq!(num_to_sxg(0), "0".to_string());
    assert_eq!(sxg_to_num(""), Some(0));
    assert_eq!(sxg_to_num("0"), Some(0));
}

#[test]
fn round_trip_small() {
    for n in 0u128..100000 {
        assert_eq!(sxg_to_num(&num_to_sxg(n)), Some(n));
    }
}

#[test]
fn round_trip_boundary() {
    for n in [
        u128::MAX,
        u128::MAX - 1,
        u128::MAX / 60,
        1u128 << 127,
        (1u128 << 64) - 1,
        1u128 << 64,
    ] {
        assert_eq!(sxg_to_num(&num_to_sxg(n)), Some(n));
    }
}

#[test]
fn alias_correction() {
    assert_eq!(sxg_to_num("I"), Some(1));
    assert_eq!(sxg_to_num("l"), Some(1));
    assert_eq!(sxg_to_num("O"), Some(0));
    // The aliases decode like the digits they are mistaken for.
    assert_eq!(sxg_to_num("NI"), sxg_to_num("N1"));
    assert_eq!(sxg_to_num("OONH"), Some(1337));
}

#[test]
fn noise_tolerance() {
    assert_eq!(sxg_to_num("N\u{1F97A}H"), Some(1337));
    assert_eq!(sxg_to_num("N\u{0301}H"), Some(1337));
    assert_eq!(sxg_to_num("N-H!"), Some(1337));
    assert_eq!(sxg_to_num(" \t\n."), Some(0));
    assert_eq!(sxg_to_num("1 0"), Some(60));
}

#[test]
fn overflow_detection() {
    assert_eq!(sxg_to_num("verylongstringthatoverflowsthemultiplicationbuffer"), None);
    // 21 top digits still fit in a u128; 22 no longer do.
    assert_eq!(sxg_to_num(&"z".repeat(21)), Some(60u128.pow(21) - 1));
    assert_eq!(sxg_to_num(&"z".repeat(22)), None);
    assert_eq!(sxg_to_num(&"z".repeat(60)), None);
    // One more digit behind the largest value overflows.
    let mut s = num_to_sxg(u128::MAX);
    s.push('0');
    assert_eq!(sxg_to_num(&s), None);
}

#[test]
fn digit_table_bijection() {
    assert_eq!(ALPHABET.chars().count(), 60);
    for (v, c) in ALPHABET.chars().enumerate() {
        assert_eq!(sxg_to_num(&c.to_string()), Some(v as u128));
        assert_eq!(num_to_sxg(v as u128), c.to_string());
    }
    // `i` is an alphabet character, unlike `l`, `I` and `O`.
    assert_eq!(sxg_to_num("i"), Some(43));
}

#[test]
fn canonical_strings_survive_decoding() {
    for s in ["0", "1", "NH", "10", "asc", "z", "zzzzz", "10000"] {
        assert_eq!(num_to_sxg(sxg_to_num(s).unwrap()), s.to_string());
    }
    // Decoding normalizes non-canonical strings instead.
    assert_eq!(num_to_sxg(sxg_to_num("Nl🥺H").unwrap()), "N1H".to_string());
    assert_eq!(num_to_sxg(sxg_to_num("007").unwrap()), "7".to_string());
}

#[test]
fn canonical_minimality() {
    for n in 1u128..5000 {
        assert!(!num_to_sxg(n).starts_with('0'));
    }
    for n in 0u128..5000 {
        let len = num_to_sxg(n).chars().count();
        let expected = if n < 60 {
            1
        } else if n < 3600 {
            2
        } else {
            3
        };
        assert_eq!(len, expected);
    }
}
