//! Tests of the scalar/word/block extend family: agreement across variants,
//! zero and full-match edge cases, boundary mismatch positions, and the
//! end-to-end scenarios.

type ExtendFn = fn(&[u8], &[u8]) -> i32;

/// The bounds-checked variants: safe on unpadded sequences.
fn checked_variants() -> Vec<(&'static str, ExtendFn)> {
    vec![
        ("zip", pa_extend::zip as ExtendFn),
        ("naive", pa_extend::naive as ExtendFn),
        ("naive_fast", pa_extend::naive_fast as ExtendFn),
        ("scalar", pa_extend::scalar as ExtendFn),
        ("scalar_fast", pa_extend::scalar_fast as ExtendFn),
        ("u64", pa_extend::u64 as ExtendFn),
    ]
}

/// The unchecked variants: they rely on the padding guarantee, so tests hand
/// them buffers that carry differing guard bytes after the logical end.
fn unchecked_variants() -> Vec<(&'static str, ExtendFn)> {
    vec![
        ("naive_unsafe", pa_extend::naive_unsafe as ExtendFn),
        ("scalar_unsafe", pa_extend::scalar_unsafe as ExtendFn),
        ("u64_unsafe", pa_extend::u64_unsafe as ExtendFn),
        ("u64_unsafe_eq", pa_extend::u64_unsafe_eq as ExtendFn),
        ("u64_unsafe_eq_if0", pa_extend::u64_unsafe_eq_if0 as ExtendFn),
        ("u64_unsafe_eq_if1", pa_extend::u64_unsafe_eq_if1 as ExtendFn),
        ("s64_unsafe", pa_extend::s64_unsafe as ExtendFn),
        ("s64_unsafe_nz", pa_extend::s64_unsafe_nz as ExtendFn),
        ("s128_unsafe", pa_extend::s128_unsafe as ExtendFn),
        ("s128_unsafe_nz", pa_extend::s128_unsafe_nz as ExtendFn),
        ("s256_unsafe", pa_extend::s256_unsafe as ExtendFn),
        ("s256_unsafe_nz", pa_extend::s256_unsafe_nz as ExtendFn),
        ("s256_unsafe_eq", pa_extend::s256_unsafe_eq as ExtendFn),
        ("hybrid", pa_extend::hybrid as ExtendFn),
    ]
}

/// Copies `v` and appends 40 guard bytes of value `guard`, establishing the
/// padding guarantee for block widths up to 32 as long as the two guards of
/// a pair differ.
fn pad(v: &[u8], guard: u8) -> Vec<u8> {
    let mut out = v.to_vec();
    out.extend(std::iter::repeat(guard).take(40));
    out
}

/// Runs every variant of the whole family on one logical input pair and
/// checks them against the expected match length.
fn assert_all_variants(a: &[u8], b: &[u8], expected: i32) {
    for (name, f) in checked_variants() {
        assert_eq!(f(a, b), expected, "checked variant {name}");
    }
    let pa = pad(a, 0xee);
    let pb = pad(b, 0x11);
    for (name, f) in unchecked_variants() {
        assert_eq!(f(&pa, &pb), expected, "unchecked variant {name}");
    }
}

#[test]
fn variants_agree_across_family() {
    let cases: Vec<(Vec<u8>, Vec<u8>)> = vec![
        (b"ACGTACGT".to_vec(), b"ACGTACGA".to_vec()),
        (b"G".to_vec(), b"G".to_vec()),
        (vec![7; 100], vec![7; 100]),
        (
            b"the quick brown fox jumps over the lazy dog".to_vec(),
            b"the quick brown fox jumped over the lazy dog".to_vec(),
        ),
        ((0..=255u8).collect(), (0..=255u8).collect()),
    ];
    for (a, b) in cases {
        let reference = pa_extend::naive(&a, &b);
        assert_all_variants(&a, &b, reference);
    }
}

#[test]
fn returns_zero_on_first_byte_mismatch() {
    let a = b"Xsame tail".to_vec();
    let b = b"Ysame tail".to_vec();
    assert_all_variants(&a, &b, 0);
}

#[test]
fn checked_variants_handle_empty() {
    for (name, f) in checked_variants() {
        assert_eq!(f(&[], &[]), 0, "checked variant {name} on two empties");
        assert_eq!(f(&[], b"AC"), 0, "checked variant {name} on empty left");
        assert_eq!(f(b"AC", &[]), 0, "checked variant {name} on empty right");
    }
}

#[test]
fn result_within_upper_bound() {
    let a = b"AAAAAAAAAAAAAAAA".to_vec();
    let b = b"AAAAAAAA".to_vec();
    for (name, f) in checked_variants() {
        let r = f(&a, &b);
        assert!(0 <= r && r <= 8, "checked variant {name} out of bounds: {r}");
        assert_eq!(r, 8, "checked variant {name}");
    }
    // Unchecked variants satisfy the same bound once the padding guarantee
    // holds; the bound is min of the logical lengths.
    let pa = pad(&a, 0xee);
    let pb = pad(&b, 0x11);
    for (name, f) in unchecked_variants() {
        let r = f(&pa, &pb);
        assert_eq!(r, 8, "unchecked variant {name}");
    }
}

#[test]
fn full_match_returns_length() {
    let a: Vec<u8> = (0..97u8).map(|x| x.wrapping_mul(31)).collect();
    let b = a.clone();
    assert_all_variants(&a, &b, 97);
}

#[test]
fn mismatch_at_word_and_block_boundaries() {
    // Mismatch exactly at offsets 0, 7, 8, 15, 16, 31, 32, 33 of otherwise
    // equal 64-byte sequences.
    for &m in &[0usize, 7, 8, 15, 16, 31, 32, 33] {
        let a: Vec<u8> = vec![0x41; 64];
        let mut b = a.clone();
        b[m] = 0x42;
        assert_all_variants(&a, &b, m as i32);
    }
}

#[test]
fn scenario_eight_byte_prefix() {
    let a = b"AAAAAAAABCDEFG".to_vec();
    let b = b"AAAAAAAAXCDEFG".to_vec();
    assert_all_variants(&a, &b, 8);
}

#[test]
fn scenario_thousand_equal_bytes() {
    let a: Vec<u8> = (0..1000u32).map(|x| (x % 251) as u8).collect();
    let b = a.clone();
    assert_all_variants(&a, &b, 1000);
}
