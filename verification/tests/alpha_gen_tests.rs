use nth_root::AlphaGenerator;
use nth_root::RootError;

#[test]
fn basic_test() {
    let vals = [
        (1_234_567, 3, [1, 234, 567, 0, 0]),
        (11_2222_3333, 4, [11, 2222, 3333, 0, 0]),
    ];

    for v in vals {
        let mut generator = AlphaGenerator::new(v.0, v.1).unwrap();

        for n in v.2 {
            let next = generator.next();
            assert_eq!(n, next);
        }
    }
}

#[test]
fn greater_root_test() {
    let vals = [
        (123, 4, [123, 0, 0]),
        (123, 11, [123, 0, 0]),
        (12345_67890, 11, [12345_67890, 0, 0]),
    ];

    for v in vals {
        let mut generator = AlphaGenerator::new(v.0, v.1).unwrap();

        for n in v.2 {
            let next = generator.next();
            assert_eq!(n, next);
        }
    }
}

#[test]
fn divisible_by_root_test() {
    let number = 1234;
    let root = 2;

    let mut generator = AlphaGenerator::new(number, root).unwrap();

    for n in [12, 34, 0, 0] {
        let next = generator.next();
        assert_eq!(n, next);
    }
}

#[test]
fn zero_num_test() {
    let number = 0;
    let root = 1;

    let mut generator = AlphaGenerator::new(number, root).unwrap();

    for _ in 0..3 {
        let next = generator.next();
        assert_eq!(0, next);
    }
}

#[test]
fn zero_block_size_is_rejected() {
    assert_eq!(
        Err(RootError::InvalidDegree),
        AlphaGenerator::new(u32::MAX, 0)
    );
    assert_eq!(Err(RootError::InvalidDegree), AlphaGenerator::new(0, 0));
}

#[test]
fn emitted_groups_recompose_the_number() {
    // Concatenating the groups as fixed-width base-10^siz digits,
    // most-significant first, rebuilds the source exactly.
    let mut generator = AlphaGenerator::new(1_234_567, 3).unwrap();
    let groups = [generator.next(), generator.next(), generator.next()];
    assert_eq!([1, 234, 567], groups);
    let rebuilt = (groups[0] * 1000 + groups[1]) * 1000 + groups[2];
    assert_eq!(1_234_567, rebuilt);

    let mut generator = AlphaGenerator::new(98_076_543, 2).unwrap();
    let mut rebuilt: u64 = 0;
    for _ in 0..4 {
        rebuilt = rebuilt * 100 + generator.next() as u64;
    }
    assert_eq!(98_076_543, rebuilt);
}
