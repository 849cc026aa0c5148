//! Codec behavior: parameter rounding, the round-trip laws, the boundary
//! behaviors and every rejection.

use reed_solomon_novelpoly::{encode, reconstruct, Error, ReedSolomon, Shard, Tables};

fn params(n: usize, k: usize) -> ReedSolomon {
    ReedSolomon::new(n, k).unwrap()
}

fn erase(shards: &[Shard], keep: &[usize]) -> Vec<Option<Shard>> {
    shards
        .iter()
        .enumerate()
        .map(|(i, s)| {
            if keep.contains(&i) {
                Some(Shard::new(s.as_bytes().clone()))
            } else {
                None
            }
        })
        .collect()
}

#[test]
fn parameter_rounding() {
    let rs = params(4, 2);
    assert_eq!((rs.wanted_n, rs.n, rs.k), (4, 4, 2));
    let rs = params(5, 3);
    assert_eq!((rs.wanted_n, rs.n, rs.k), (5, 8, 2));
    let rs = params(65536, 1000);
    assert_eq!((rs.wanted_n, rs.n, rs.k), (65536, 65536, 512));
    assert!(matches!(
        ReedSolomon::new(1, 1),
        Err(Error::WantedShardCountTooLow(1))
    ));
    assert!(matches!(
        ReedSolomon::new(4, 0),
        Err(Error::WantedPayloadShardCountTooLow(0))
    ));
    assert!(matches!(
        ReedSolomon::new(65537, 3),
        Err(Error::WantedShardCountTooHigh(65537))
    ));
}

#[test]
fn shard_len_formula() {
    let rs = params(8, 4);
    assert_eq!(rs.shard_len(1337), 336);
    assert_eq!(rs.shard_len(1), 2);
    assert_eq!(rs.shard_len(8), 2);
    assert_eq!(rs.shard_len(9), 4);
}

#[test]
fn small_codeword_bytes() {
    // k = 2, n = 4, payload 01 02 03 04: systematic halves then parity
    let t = Tables::build().unwrap();
    let rs = params(4, 2);
    let shards = rs.encode(&t, &[0x01, 0x02, 0x03, 0x04]).unwrap();
    let bytes: Vec<Vec<u8>> = shards.iter().map(|s| s.as_bytes().clone()).collect();
    assert_eq!(
        bytes,
        vec![vec![0x01, 0x02], vec![0x03, 0x04], vec![0x02, 0x95], vec![0x00, 0x93]]
    );
}

#[test]
fn single_erasure_roundtrip() {
    // k = 2, n = 4: erasing any single shard reconstructs the payload
    let t = Tables::build().unwrap();
    let rs = params(4, 2);
    let payload = [0x01u8, 0x02, 0x03, 0x04];
    let shards = rs.encode(&t, &payload).unwrap();
    for gone in 0..4usize {
        let keep: Vec<usize> = (0..4).filter(|v| *v != gone).collect();
        let out = rs.reconstruct(&t, erase(&shards, &keep)).unwrap();
        assert_eq!(&out[..4], &payload);
    }
}

#[test]
fn large_payload_roundtrip() {
    // k = 4, n = 8, 1337 bytes: 8 shards of 336 bytes; erase half
    let t = Tables::build().unwrap();
    let rs = params(8, 4);
    let payload: Vec<u8> = (0..1337u32).map(|i| ((i * 89 + 7) % 256) as u8).collect();
    let shards = rs.encode(&t, &payload).unwrap();
    assert_eq!(shards.len(), 8);
    for s in shards.iter() {
        assert_eq!(s.len(), 336);
    }
    let out = rs.reconstruct(&t, erase(&shards, &[0, 2, 4, 6])).unwrap();
    assert_eq!(&out[..1337], &payload[..]);
}

#[test]
fn encoding_is_deterministic() {
    let t = Tables::build().unwrap();
    let rs = params(6, 2);
    let payload = [7u8, 1, 9, 200, 13];
    let one = rs.encode(&t, &payload).unwrap();
    let two = rs.encode(&t, &payload).unwrap();
    let one: Vec<Vec<u8>> = one.iter().map(|s| s.as_bytes().clone()).collect();
    let two: Vec<Vec<u8>> = two.iter().map(|s| s.as_bytes().clone()).collect();
    assert_eq!(one, two);
}

#[test]
fn reconstruction_is_erasure_order_independent() {
    // whatever k-subset survives, the payload comes back the same
    let t = Tables::build().unwrap();
    let rs = params(4, 2);
    let payload = [0xDEu8, 0xAD, 0xBE, 0xEF, 0x42];
    let shards = rs.encode(&t, &payload).unwrap();
    let subsets: [[usize; 2]; 6] = [[0, 1], [0, 2], [0, 3], [1, 2], [1, 3], [2, 3]];
    for keep in subsets.iter() {
        let out = rs.reconstruct(&t, erase(&shards, keep)).unwrap();
        assert_eq!(&out[..5], &payload, "subset {:?}", keep);
    }
}

#[test]
fn single_data_shard_any_survivor_suffices() {
    // k = 1, n = 2: every surviving shard suffices
    let t = Tables::build().unwrap();
    let rs = params(2, 1);
    let payload = [0xABu8, 0xCD, 0x12];
    let shards = rs.encode(&t, &payload).unwrap();
    for keep in 0..2usize {
        let out = rs.reconstruct(&t, erase(&shards, &[keep])).unwrap();
        assert_eq!(&out[..3], &payload, "survivor {}", keep);
    }
}

#[test]
fn no_redundancy_any_erasure_fails() {
    // k = n = 4: losing any shard leaves fewer than k survivors
    let t = Tables::build().unwrap();
    let rs = params(4, 4);
    assert_eq!((rs.n, rs.k), (4, 4));
    let received = vec![
        Some(Shard::new(vec![0x01, 0x02])),
        None,
        Some(Shard::new(vec![0x03, 0x04])),
        Some(Shard::new(vec![0x05, 0x06])),
    ];
    assert!(matches!(
        rs.reconstruct(&t, received),
        Err(Error::NeedMoreShards { have: 3, min: 4, all: 4 })
    ));
}

#[test]
fn exactly_k_survivors_suffice_but_not_fewer() {
    let t = Tables::build().unwrap();
    let rs = params(8, 4);
    let payload: Vec<u8> = (0..64u32).map(|i| (i * 3 + 1) as u8).collect();
    let shards = rs.encode(&t, &payload).unwrap();
    let out = rs.reconstruct(&t, erase(&shards, &[1, 3, 5, 7])).unwrap();
    assert_eq!(&out[..64], &payload[..]);
    // with k - 1 survivors: NeedMoreShards { have: 3, min: 4, all: 8 }
    let r = rs.reconstruct(&t, erase(&shards, &[1, 3, 5]));
    assert!(matches!(
        r,
        Err(Error::NeedMoreShards { have: 3, min: 4, all: 8 })
    ));
}

#[test]
fn unequal_shard_lengths_are_rejected() {
    let t = Tables::build().unwrap();
    let rs = params(4, 2);
    let received = vec![
        Some(Shard::new(vec![1, 2])),
        Some(Shard::new(vec![3, 4, 5, 6])),
        None,
        None,
    ];
    assert!(matches!(
        rs.reconstruct(&t, received),
        Err(Error::InconsistentShardLengths { first: 2, other: 4 })
    ));
}

#[test]
fn empty_payload_is_rejected() {
    let t = Tables::build().unwrap();
    let rs = params(4, 2);
    assert!(matches!(rs.encode(&t, &[]), Err(Error::PayloadSizeIsZero)));
}

#[test]
fn nothing_received_is_rejected() {
    let t = Tables::build().unwrap();
    let rs = params(4, 2);
    let received: Vec<Option<Shard>> = vec![None, None, None, None];
    assert!(matches!(
        rs.reconstruct(&t, received),
        Err(Error::PayloadSizeIsZero)
    ));
}

#[test]
fn empty_shards_are_rejected() {
    let t = Tables::build().unwrap();
    let rs = params(4, 2);
    let received = vec![Some(Shard::new(vec![])), Some(Shard::new(vec![])), None, None];
    assert!(matches!(
        rs.reconstruct(&t, received),
        Err(Error::ZeroLengthShards)
    ));
}

#[test]
fn odd_shard_lengths_are_rejected() {
    let t = Tables::build().unwrap();
    let rs = params(4, 2);
    let received = vec![Some(Shard::new(vec![1, 2, 3])), None, None, None];
    assert!(matches!(
        rs.reconstruct(&t, received),
        Err(Error::UndivisableShardLength { shard_length: 3, field_bytes: 2 })
    ));
}

#[test]
fn novel_poly_basis_roundtrip() {
    // the crate-level pair: 1337 bytes dispersed to 10 shards, a third of
    // which recover the payload
    let t = Tables::build().unwrap();
    let payload: Vec<u8> = (0..1337u32).map(|i| ((i * 17 + 5) % 256) as u8).collect();
    let shards = encode(&t, &payload, 10).unwrap();
    assert_eq!(shards.len(), 10);
    // keep only four of ten (k rounds to 4 of n = 16)
    let received: Vec<Option<Shard>> = shards
        .iter()
        .enumerate()
        .map(|(i, s)| {
            if [0, 3, 5, 9].contains(&i) {
                Some(Shard::new(s.as_bytes().clone()))
            } else {
                None
            }
        })
        .collect();
    let out = reconstruct(&t, received, 10).unwrap();
    assert_eq!(&out[..1337], &payload[..]);
}
