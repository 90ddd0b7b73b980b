//! Tests of the batched single-step probes: per-lane results for identical
//! and mismatching fixed-width windows.

#[test]
fn batched_u32_single_step() {
    // One sequence; lanes compare windows of it against windows of another.
    let a: Vec<u8> = vec![
        1, 2, 3, 4, //
        1, 2, 3, 4, //
        9, 2, 3, 4, //
        1, 9, 3, 4, //
        1, 2, 9, 4, //
        1, 2, 3, 9, //
        5, 6, 7, 8, //
        5, 6, 7, 8,
    ];
    let b: Vec<u8> = vec![1, 2, 3, 4, 5, 6, 7, 8];
    // Lane k reads a[is[k]..is[k]+4] and b[js[k]..js[k]+4].
    let is: Vec<i32> = vec![0, 4, 8, 12, 16, 20, 24, 28];
    let js: Vec<i32> = vec![0, 0, 0, 0, 0, 0, 4, 0];
    let r = pa_extend::parallel::u32_unsafe_once_ss(&a, &b, &is, &js);
    // Identical windows report the full width 4; windows differing at byte
    // p report exactly p.
    assert_eq!(r, vec![4, 4, 0, 1, 2, 3, 4, 0]);
}

#[test]
fn batched_u16_single_step() {
    let a: Vec<u8> = vec![
        1, 2, //
        9, 2, //
        1, 9, //
        1, 2, //
        3, 4, //
        9, 4, //
        3, 9, //
        3, 4, //
        1, 2, 9, 2, 1, 9, 1, 2, 3, 4, 9, 4, 3, 9, 3, 4,
    ];
    let b: Vec<u8> = vec![1, 2, 3, 4];
    let is: Vec<i32> = (0..16).map(|k| 2 * k).collect();
    let js: Vec<i32> = vec![0, 0, 0, 0, 2, 2, 2, 2, 0, 0, 0, 0, 2, 2, 2, 2];
    let r = pa_extend::parallel::u16_unsafe_once_ss(&a, &b, &is, &js);
    assert_eq!(r, vec![2, 0, 1, 2, 2, 0, 1, 2, 2, 0, 1, 2, 2, 0, 1, 2]);
}

#[test]
fn batched_k8_mismatching_windows() {
    // Eight lanes whose 4-byte windows all mismatch somewhere: every lane
    // reports a value in [0, 4). A lane with equal windows reports 4.
    let a: Vec<u8> = (0..64u8).collect();
    let mut b = a.clone();
    for k in 0..8usize {
        // Corrupt byte k % 4 of the window at 4 * k in b.
        b[4 * k + (k % 4)] ^= 0xff;
    }
    let is: Vec<i32> = (0..8).map(|k| 4 * k).collect();
    let js = is.clone();
    let r = pa_extend::parallel::u32_unsafe_once_ss(&a, &b, &is, &js);
    for (k, &lane) in r.iter().enumerate() {
        let expected = (k % 4) as i32;
        assert!((0..4).contains(&lane), "lane {k} out of range: {lane}");
        assert_eq!(lane, expected, "lane {k}");
    }
    // Same offsets against the uncorrupted copy: equal windows, all lanes 4.
    let r_eq = pa_extend::parallel::u32_unsafe_once_ss(&a, &a, &is, &js);
    assert_eq!(r_eq, vec![4; 8]);
}
