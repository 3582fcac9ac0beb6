use nth_root::root;

#[test]
fn lib_basic_test() {
    assert_eq!(Some(2), root(3, 8));
}

#[test]
fn lib_zero_root_test() {
    assert_eq!(None, root(0, u32::MAX));
}

#[test]
fn sqrt_basic_test() {
    let vals = [
        (0, [0].as_slice()),
        (1, [1, 3].as_slice()),
        (2, [4, 8].as_slice()),
        (3, [9, 15].as_slice()),
        (4, [16, 24].as_slice()),
        (5, [25, 35].as_slice()),
    ];

    for v in vals.iter() {
        for &n in v.1 {
            assert_eq!(Some(v.0), root(2, n), "exp: {}, inp: {}", v.0, n);
        }
    }
}

#[test]
fn cbrt_basic_test() {
    let vals = [
        (0, [0].as_slice()),
        (1, [1, 7].as_slice()),
        (2, [8, 26].as_slice()),
        (3, [27, 63].as_slice()),
        (4, [64, 124].as_slice()),
        (5, [125, 215].as_slice()),
    ];

    for v in vals.iter() {
        for &n in v.1 {
            assert_eq!(Some(v.0), root(3, n), "exp: {}, inp: {}", v.0, n);
        }
    }
}

#[test]
fn integer_root_test() {
    let vals = [
        (4, 4, 256),
        (7, 5, 16_807),
        (4, 14, 268_435_456),
        (2, 30, 1_073_741_824),
        (100, 4, 1_00_00_00_00),
        (217, 3, 10_218_313),
        (5560, 2, 30_913_600),
        (1222, 3, 1_824_793_048),
        (177, 4, 981_506_241),
        (793, 3, 498_677_257),
        (313, 3, 30_664_297),
    ];
    for v in vals {
        assert_eq!(
            Some(v.0),
            root(v.1, v.2),
            "exp: {}, deg: {}, inp: {}",
            v.0,
            v.1,
            v.2
        );
    }
}

#[test]
fn rounded_root_test() {
    let vals = [
        (17, 2, 312),              // ≈ 17.7
        (9, 4, 9999),              // ≈ 9.9998
        (9, 3, 999),               // ≈ 9.997
        (9, 2, 99),                // ≈ 9.95
        (99, 2, 9999),             // ≈ 99.995
        (21, 3, 9999),             // ≈ 21.5
        (20, 4, 173_479),          // ≈ 20.41
        (2, 17, 16_777_215),       // ≈ 2.661
        (3, 13, 33_554_431),       // ≈ 3.79
        (31629, 2, 1_000_400_400), // ≈ 31629.11
        (45, 5, 200_300_010),      // ≈ 45.7
    ];
    for v in vals {
        assert_eq!(
            Some(v.0),
            root(v.1, v.2),
            "exp: {}, deg: {}, inp: {}",
            v.0,
            v.1,
            v.2
        );
    }
}

#[test]
fn first_degree_root_is_identity() {
    for n in [0u32, 1, 9, 10, 99, 4_294_967_295] {
        assert_eq!(Some(n), root(1, n));
    }
}

#[test]
fn very_large_degrees() {
    // For degrees past the bit width of the radicand the floor root is 1
    // (or 0 for a zero radicand).
    assert_eq!(Some(1), root(32, u32::MAX));
    assert_eq!(Some(1), root(100, 2));
    assert_eq!(Some(1), root(255, u32::MAX));
    assert_eq!(Some(0), root(255, 0));
    // Degree 31 still has a nontrivial answer: 2^31 <= u32::MAX < 3^31.
    assert_eq!(Some(2), root(31, u32::MAX));
}

#[test]
fn boundary_radicands() {
    // Exact powers of two at the edge of the u32 domain.
    assert_eq!(Some(2), root(31, 2_147_483_648));
    assert_eq!(Some(4), root(15, 1_073_741_824));
    assert_eq!(Some(5), root(12, 900_900_009)); // ≈ 5.575
    assert_eq!(Some(2), root(26, 90_900_009)); // ≈ 2.02
    // Floor square root at the top of the domain: 65536^2 wraps past it.
    assert_eq!(Some(65535), root(2, u32::MAX));
    assert_eq!(Some(1625), root(3, u32::MAX));
}

#[test]
fn root_of_zero_for_every_degree() {
    for d in [1u8, 2, 3, 9, 10, 19, 20, 100, 255] {
        assert_eq!(Some(0), root(d, 0));
    }
}

#[test]
fn perfect_powers_roundtrip() {
    for y in 0u32..=30 {
        assert_eq!(Some(y), root(3, y * y * y), "cube of {}", y);
    }
    for y in 0u32..=1000 {
        assert_eq!(Some(y), root(2, y * y), "square of {}", y);
    }
}

#[test]
fn monotonic_in_the_radicand() {
    for d in [1u8, 2, 3, 5, 11] {
        let mut prev = 0u32;
        for n in 0u32..=2000 {
            let cur = root(d, n).unwrap();
            assert!(prev <= cur, "deg: {}, inp: {}", d, n);
            prev = cur;
        }
    }
}
