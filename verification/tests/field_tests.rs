//! Field-level behavior: table round trips, addition laws, and agreement
//! of table multiplication with bit-polynomial multiplication.

use reed_solomon_novelpoly::f2e16::gf_mul_bitpoly_reduced;
use reed_solomon_novelpoly::{Additive, Logarithm, Tables};

#[test]
fn exp_log_round_trip() {
    let t = Tables::build().unwrap();
    for a in 1..65536usize {
        assert_eq!(t.exp[t.log[a] as usize] as usize, a);
    }
    for l in 0..65535usize {
        assert_eq!(t.log[t.exp[l] as usize] as usize, l);
    }
    assert_eq!(t.exp[65535], t.exp[0]);
    // the logarithm of zero is the ONEMASK sentinel
    assert_eq!(t.log[0], 65535);
}

#[test]
fn table_build_is_deterministic() {
    let t1 = Tables::build().unwrap();
    let t2 = Tables::build().unwrap();
    assert_eq!(t1.log, t2.log);
    assert_eq!(t1.exp, t2.exp);
    assert_eq!(t1.skew, t2.skew);
    assert_eq!(t1.b, t2.b);
    assert_eq!(t1.log_walsh, t2.log_walsh);
    // the formal-derivative multipliers stay below ONEMASK, zero first
    assert_eq!(t1.b[0], 0);
    assert!(t1.b.iter().all(|&x| x < 65535));
}

#[test]
fn addition_is_xor_commutative_self_inverse() {
    let samples: [u16; 6] = [0, 1, 0x2D, 0xBEEF, 0x8000, 0xFFFF];
    for &a in samples.iter() {
        for &b in samples.iter() {
            let ab = Additive(a).add(Additive(b));
            let ba = Additive(b).add(Additive(a));
            assert_eq!(ab, ba);
            assert_eq!(ab.0, a ^ b);
        }
        assert_eq!(Additive(a).add(Additive(a)), Additive(0));
    }
}

/// The Cantor basis of the field, as in its construction: bit `j` of a
/// symbol picks basis element `j`.
const CANTOR_BASE: [u16; 16] = [
    1, 44234, 15374, 5694, 50562, 60718, 37196, 16402, 27800, 4312, 27250, 47360, 64952, 64308,
    65336, 39198,
];

/// The polynomial-basis element that a symbol's coordinates stand for.
fn cantor_of(x: u16) -> u16 {
    let mut r: u16 = 0;
    for j in 0..16 {
        if (x >> j) & 1 == 1 {
            r ^= CANTOR_BASE[j];
        }
    }
    r
}

#[test]
fn table_mul_agrees_with_bitpoly_mul() {
    // the tables multiply Cantor-represented elements, so the agreement
    // with bit-polynomial multiplication goes through the basis change
    let t = Tables::build().unwrap();
    let mut a: u32 = 1;
    while a < 65536 {
        let mut b: u32 = 1;
        while b < 65536 {
            let m = Additive(b as u16).to_multiplier(&t);
            let lhs = cantor_of(Additive(a as u16).mul(&t, m).0);
            let rhs = gf_mul_bitpoly_reduced(cantor_of(a as u16), cantor_of(b as u16));
            assert_eq!(lhs, rhs, "mul mismatch at {} * {}", a, b);
            b = b * 3 + 1;
        }
        a = a * 3 + 1;
    }
    assert_eq!(gf_mul_bitpoly_reduced(3, 5), 15);
}

#[test]
fn mul_by_zero_operand_is_zero() {
    let t = Tables::build().unwrap();
    for b in [0u16, 1, 0x1234, 0xFFFF] {
        let m = Additive(b).to_multiplier(&t);
        assert_eq!(Additive(0).mul(&t, m), Additive(0));
    }
}

#[test]
fn multiplier_wide_round_trip() {
    let l = Logarithm(0xABCD);
    assert_eq!(l.to_wide(), 0xABCDu32);
    assert_eq!(Logarithm::from_wide(0xABCDu32).0, 0xABCD);
    assert_eq!(Logarithm::from_wide(0x1_ABCDu32).0, 0xABCD);
}

#[test]
fn mul_assign_slice_multiplies_every_element() {
    let t = Tables::build().unwrap();
    let m = Additive(7).to_multiplier(&t);
    let mut v = vec![Additive(1), Additive(2), Additive(0), Additive(0xFFFF)];
    let expected: Vec<Additive> = v.iter().map(|a| a.mul(&t, m)).collect();
    Additive::mul_assign_slice(&t, &mut v, m);
    assert_eq!(v, expected);
}
