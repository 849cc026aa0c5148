//! The byte companion field, and its multiplicative agreement with the
//! byte-sized values of the main field.

use reed_solomon_novelpoly::{Additive, GF2e8, Multiplier, Tables, Tables256};

#[test]
fn agreement_f2e16_with_f256() {
    let t8 = Tables256::build().unwrap();
    let t16 = Tables::build().unwrap();
    for i in 1..=255u8 {
        let i_f256 = GF2e8(i).to_multiplier(&t8);
        let i_f2e16 = Additive(i as u16).to_multiplier(&t16);
        for j in 0..=255u8 {
            let j_f256 = GF2e8(j).mul(&t8, i_f256);
            let j_f2e16 = Additive(j as u16).mul(&t16, i_f2e16);
            assert_eq!(j_f256.0 as u16, j_f2e16.0);
        }
    }
}

#[test]
fn byte_field_round_trips() {
    let t8 = Tables256::build().unwrap();
    for a in 1..256usize {
        assert_eq!(t8.exp[t8.log[a] as usize] as usize, a);
    }
    for l in 0..255usize {
        assert_eq!(t8.log[t8.exp[l] as usize] as usize, l);
    }
}

#[test]
fn multiplier_wide_round_trip_byte() {
    let m = Multiplier(0xAB);
    assert_eq!(m.to_wide(), 0xABu16);
    assert_eq!(Multiplier::from_wide(0x1ABu16).0, 0xAB);
}
