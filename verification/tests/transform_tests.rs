//! Transform-level behavior: the additive FFT round trip and the Walsh
//! transform's self-duality.

use reed_solomon_novelpoly::transforms::{afft, inverse_afft, walsh};
use reed_solomon_novelpoly::Tables;

#[test]
fn flt_roundtrip() {
    let t = Tables::build().unwrap();
    let expected: Vec<u16> = vec![1, 2, 3, 5, 8, 13, 21, 44, 65, 0, 0xFFFF, 2, 3, 5, 7, 11];
    let mut data = expected.clone();
    afft(&t, &mut data, 16, 4);
    assert_ne!(data, expected, "the forward transform must move the symbols");
    inverse_afft(&t, &mut data, 16, 4);
    assert_eq!(data, expected);
}

#[test]
fn afft_roundtrip_across_sizes() {
    let t = Tables::build().unwrap();
    for log_size in 1..9usize {
        let size = 1usize << log_size;
        let expected: Vec<u16> = (0..size).map(|i| (i as u16).wrapping_mul(40503) ^ 0x5A5A).collect();
        let mut data = expected.clone();
        afft(&t, &mut data, size, 0);
        inverse_afft(&t, &mut data, size, 0);
        assert_eq!(data, expected, "round trip failed at size {}", size);
    }
}

#[test]
fn walsh_self_duality_small() {
    // size 8: walsh twice multiplies by 8 mod ONEMASK
    let orig: Vec<u16> = vec![3, 65535, 0, 7, 65000, 1, 2, 40000];
    let mut w = orig.clone();
    walsh(&mut w, 8);
    walsh(&mut w, 8);
    for i in 0..8usize {
        assert_eq!(
            w[i] as u64 % 65535,
            (8 * orig[i] as u64) % 65535,
            "position {}",
            i
        );
    }
}

#[test]
fn walsh_self_duality() {
    // applying walsh twice to e0 scales it by 65536 == 1 mod ONEMASK
    let mut w: Vec<u16> = vec![0; 65536];
    w[0] = 1;
    walsh(&mut w, 65536);
    walsh(&mut w, 65536);
    assert_eq!(w[0] % 65535, 1);
    for i in 1..65536usize {
        assert_eq!(w[i] % 65535, 0, "position {}", i);
    }
}
