use chess_search::binary64::Binary64;

fn next(state: &mut u64) -> u64 {
    *state = state.wrapping_mul(6364136223846793005).wrapping_add(1442695040888963407);
    let x = *state;
    // Numbers of all sizes.
    (x >> 7) >> ((x >> 3) % 57)
}

/// The first 20 bits behind the point count too.
fn fine(x: Binary64) -> u64 {
    x.times(Binary64::from_u64(1 << 20)).trunc()
}

#[test]
fn integers_are_rounded_to_53_bits() {
    assert_eq!(Binary64::from_u64(0).trunc(), 0);
    assert_eq!(Binary64::from_u64(1).trunc(), 1);
    assert_eq!(Binary64::from_u64(9007199254740992).trunc(), 9007199254740992);
    assert_eq!(Binary64::from_u64(9007199254740993).trunc(), 9007199254740992);
    assert_eq!(Binary64::from_u64(9007199254740995).trunc(), 9007199254740996);
    assert_eq!(Binary64::from_u64(u64::MAX).trunc(), u64::MAX);
    let mut state = 1u64;
    for _ in 0..20000 {
        let n = next(&mut state);
        assert_eq!(Binary64::from_u64(n).trunc(), n as f64 as u64);
    }
}

#[test]
fn quotients_of_integers_are_rounded_like_literals() {
    assert_eq!(fine(Binary64::ratio(35, 1000)), (0.035f64 * 1048576.0) as u64);
    assert_eq!(fine(Binary64::ratio(85, 100)), (0.85f64 * 1048576.0) as u64);
    let mut state = 2u64;
    for _ in 0..20000 {
        let n = next(&mut state);
        let d = next(&mut state) % 2047 + 1;
        let x = n as f64 / d as f64;
        // Both integers are exact in binary64 here, so the quotient is rounded once.
        if n < (1 << 53) {
            assert_eq!(fine(Binary64::ratio(n, d)), (x * 1048576.0) as u64);
        }
    }
}

#[test]
fn products_are_rounded() {
    let mut state = 3u64;
    for _ in 0..20000 {
        let a = next(&mut state);
        let b = next(&mut state) % (1 << 20);
        let x = a as f64 * (b as f64 / 1000.0);
        let y = Binary64::from_u64(a).times(Binary64::from_u64(b).over(Binary64::from_u64(1000)));
        assert_eq!(y.trunc(), x as u64);
        assert_eq!(fine(y), (x * 1048576.0) as u64);
    }
}

#[test]
fn quotients_are_rounded() {
    let mut state = 4u64;
    for _ in 0..20000 {
        let a = next(&mut state);
        let b = next(&mut state).max(1);
        let x = a as f64 / b as f64;
        let y = Binary64::from_u64(a).over(Binary64::from_u64(b));
        assert_eq!(y.trunc(), x as u64);
        assert_eq!(fine(y), (x * 1048576.0) as u64);
    }
}

#[test]
fn sums_are_rounded() {
    let mut state = 5u64;
    for _ in 0..20000 {
        let a = next(&mut state);
        let b = next(&mut state);
        let c = next(&mut state).max(1);
        let x = a as f64 + b as f64 / c as f64;
        let y = Binary64::from_u64(a).plus(Binary64::from_u64(b).over(Binary64::from_u64(c)));
        let z = Binary64::from_u64(b).over(Binary64::from_u64(c)).plus(Binary64::from_u64(a));
        assert_eq!(y.trunc(), x as u64);
        assert_eq!(fine(y), (x * 1048576.0) as u64);
        assert_eq!(fine(z), fine(y));
    }
    let tiny = Binary64::from_u64(1).over(Binary64::from_u64(u64::MAX));
    assert_eq!(Binary64::from_u64(1 << 60).plus(tiny).trunc(), 1 << 60);
}

#[test]
fn differences_are_rounded() {
    let mut state = 6u64;
    for _ in 0..20000 {
        let a = next(&mut state);
        let b = next(&mut state);
        let c = next(&mut state).max(1);
        let p = a as f64;
        let q = b as f64 / c as f64;
        if p > q {
            let x = p - q;
            let y = Binary64::from_u64(a).minus(Binary64::from_u64(b).over(Binary64::from_u64(c)));
            assert_eq!(y.trunc(), x as u64);
            assert_eq!(fine(y), (x * 1048576.0) as u64);
        }
    }
    let whole = Binary64::ratio(85, 100);
    let less = Binary64::ratio(5, 1000).times(Binary64::from_u64(7));
    assert_eq!(fine(whole.minus(less)), ((0.85f64 - 0.005 * 7.0) * 1048576.0) as u64);
}

#[test]
fn numbers_are_compared() {
    let a = Binary64::ratio(1, 3);
    let b = Binary64::ratio(1, 4);
    let zero = Binary64::from_u64(0);
    assert!(a.at_least(b));
    assert!(!b.at_least(a));
    assert!(a.at_least(a));
    assert!(a.at_least(zero));
    assert!(!zero.at_least(b));
    assert!(zero.at_least(zero));
    assert_eq!(fine(a.max(b)), 349525);
    assert_eq!(fine(a.min(b)), 262144);
}

#[test]
fn truncation_saturates() {
    let big = Binary64::from_u64(u64::MAX);
    assert_eq!(big.times(Binary64::from_u64(4)).trunc(), u64::MAX);
    assert_eq!(Binary64::from_u64(0).times(big).trunc(), 0);
    assert_eq!(Binary64::ratio(999, 1000).trunc(), 0);
    assert_eq!(Binary64::ratio(1001, 1000).trunc(), 1);
}
