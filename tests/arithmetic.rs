use ready_set_boole::arithmetic;

#[test]
fn arithmetic_adder() {
    // Some simple additions
    for a in 0..u8::MAX as u32 {
        for b in 0..u8::MAX as u32 {
            assert_eq!(arithmetic::adder(a, b), a.wrapping_add(b));
        }
    }
    // Edge cases
    assert_eq!(arithmetic::adder(u32::MAX, 1), 0);
}

#[test]
fn subber() {
    // Some simple substractions
    for a in 0..u8::MAX as u32 {
        for b in 0..u8::MAX as u32 {
            assert_eq!(arithmetic::subber(a, b), a.wrapping_sub(b));
        }
    }
}

#[test]
fn mutiplier() {
    for a in 0..u8::MAX as u32 {
        for b in 0..u8::MAX as u32 {
            assert_eq!(arithmetic::multiplier(a, b), a.wrapping_mul(b));
        }
    }
    // Edge cases
    assert_eq!(
        arithmetic::multiplier(u32::MAX, u32::MAX),
        u32::MAX.wrapping_mul(u32::MAX)
    );
}

#[test]
fn gray_code() {
    for a in 0..u8::MAX as u32 {
        let ga = arithmetic::gray_code(a);
        let gb = arithmetic::gray_code(a + 1);
        let diff = ga ^ gb;
        assert_eq!(diff.count_ones(), 1, "{ga:b} {gb:b}");
    }

    assert_eq!(arithmetic::gray_code(0), 0);
    assert_eq!(arithmetic::gray_code(1), 1);
    assert_eq!(arithmetic::gray_code(2), 3);
    assert_eq!(arithmetic::gray_code(3), 2);
    assert_eq!(arithmetic::gray_code(4), 6);
    assert_eq!(arithmetic::gray_code(5), 7);
    assert_eq!(arithmetic::gray_code(6), 5);
    assert_eq!(arithmetic::gray_code(7), 4);
    assert_eq!(arithmetic::gray_code(8), 12);
}

#[test]
fn adder_wraps_at_large_values() {
    assert_eq!(arithmetic::adder(0x8000_0000, 0x8000_0000), 0);
    assert_eq!(arithmetic::adder(0xdead_beef, 0x1234_5678), 0xdead_beefu32.wrapping_add(0x1234_5678));
}

#[test]
fn subber_wraps_below_zero() {
    assert_eq!(arithmetic::subber(0, 1), u32::MAX);
    assert_eq!(arithmetic::subber(5, 7), 5u32.wrapping_sub(7));
}

#[test]
fn multiplier_large_values() {
    assert_eq!(arithmetic::multiplier(0x1_0000, 0x1_0000), 0);
    assert_eq!(arithmetic::multiplier(123_456_789, 987_654_321), 123_456_789u32.wrapping_mul(987_654_321));
}

#[test]
fn gray_code_consecutive_large() {
    for a in [0xffffu32, 0x7fff_ffff, 0xffff_fffe, 0x1234_5678] {
        let diff = arithmetic::gray_code(a) ^ arithmetic::gray_code(a + 1);
        assert_eq!(diff.count_ones(), 1);
    }
    assert_eq!(arithmetic::gray_code(u32::MAX), 0x8000_0000);
}
