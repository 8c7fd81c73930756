use hexsnake::seed::{encode_seed, entropy_of_nanos, parse_seed, random_seed, seed_of_entropy};

#[test]
fn roundtrip_through_display_form() {
    for seed in [0u64, 1, 42, 0xDEAD_BEEF, u32::MAX as u64] {
        let encoded = encode_seed(seed);
        assert_eq!(encoded.len(), 6, "compact form is 6 chars: {encoded}");
        assert_eq!(parse_seed(&encoded), Some(seed), "roundtrip of {seed}");
    }
}

#[test]
fn encoded_first_char_never_a_digit() {
    // Top 4 bits of the 36-bit group are zero for u32 seeds, so the first
    // char is in A..=P, which keeps decimal and base64 forms unambiguous.
    for seed in [0u64, 7, 12345, 0xFFFF_FFFF] {
        let first = encode_seed(seed).chars().next().unwrap();
        assert!(('A'..='P').contains(&first), "got {first} for {seed}");
    }
}

#[test]
fn parses_decimal() {
    assert_eq!(parse_seed("42"), Some(42));
    assert_eq!(parse_seed("18446744073709551615"), Some(u64::MAX));
}

#[test]
fn legacy_large_seeds_fall_back_to_decimal_display() {
    let big = u64::MAX;
    assert_eq!(encode_seed(big), big.to_string());
    assert_eq!(parse_seed(&encode_seed(big)), Some(big));
}

#[test]
fn seed_rejects_garbage() {
    assert_eq!(parse_seed(""), None);
    assert_eq!(parse_seed("zu kurz"), None);
    assert_eq!(parse_seed("!!!!!!"), None);
    assert_eq!(parse_seed("AAAAAAAAAA"), None, "wrong length");
}

#[test]
fn random_seed_fits_in_32_bits() {
    assert!(random_seed() <= u64::from(u32::MAX));
}

#[test]
fn compact_form_examples() {
    assert_eq!(encode_seed(0), "AAAAAA");
    assert_eq!(parse_seed("AAAAAq"), Some(42));
    assert_eq!(parse_seed("  42  "), Some(42));
}

#[test]
fn surrounding_unicode_whitespace_is_ignored() {
    assert_eq!(parse_seed("\t42\n"), Some(42));
    assert_eq!(parse_seed("\u{3000}AAAAAq\u{2003}"), Some(42));
    assert_eq!(parse_seed("4 2"), None, "inner whitespace stays");
}

#[test]
fn seeds_are_the_low_bits_of_the_clock() {
    assert_eq!(seed_of_entropy(0x1_2345_6789), 0x2345_6789);
    assert_eq!(seed_of_entropy(u64::MAX), u64::from(u32::MAX));
    assert_eq!(entropy_of_nanos((1u128 << 64) + 5), 5);
    assert_eq!(seed_of_entropy(entropy_of_nanos(1_700_000_000_123_456_789)), 1_700_000_000_123_456_789u64 & 0xFFFF_FFFF);
}
