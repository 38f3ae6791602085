use loam::gf256::{gf_inv, gf_mul};
use loam::gf_matrix::invert;
use loam::loam_ec::{body_from_shards, encode, reconstruct, shard_len_for, EcError};

#[test]
fn products_in_the_field() {
    assert_eq!(gf_mul(0, 7), 0);
    assert_eq!(gf_mul(1, 0xB7), 0xB7);
    assert_eq!(gf_mul(2, 0x80), 0x1D);
    assert_eq!(gf_mul(3, 7), 9);
}

#[test]
fn inverses_in_the_field() {
    for a in 1u8..=255 {
        assert_eq!(gf_mul(a, gf_inv(a)), 1);
    }
}

#[test]
fn a_singular_matrix_has_no_inverse() {
    assert_eq!(invert(vec![vec![1, 2], vec![1, 2]], 2), None);
    assert_eq!(invert(vec![vec![0, 1], vec![1, 0]], 2), Some(vec![vec![0, 1], vec![1, 0]]));
}

#[test]
fn shard_lengths_round_up() {
    assert_eq!(shard_len_for(0, 4), 1);
    assert_eq!(shard_len_for(9, 0), 0);
    assert_eq!(shard_len_for(1, 4), 1);
    assert_eq!(shard_len_for(8, 4), 2);
    assert_eq!(shard_len_for(9, 4), 3);
}

fn coded(body: &[u8], k: u8, m: u8) -> (Vec<u8>, usize) {
    let shard_len = shard_len_for(body.len(), k);
    let mut shards = vec![0u8; shard_len * (k as usize + m as usize)];
    assert_eq!(encode(body, k, m, &mut shards), Ok(shard_len));
    (shards, shard_len)
}

#[test]
fn data_shards_hold_the_body() {
    let body = b"the quick brown fox".to_vec();
    let (shards, shard_len) = coded(&body, 4, 2);
    let mut out = vec![0u8; body.len()];
    assert_eq!(body_from_shards(&shards, shard_len, 4, body.len(), &mut out), Ok(()));
    assert_eq!(out, body);
}

#[test]
fn any_shards_of_enough_number_bring_all_back() {
    let body: Vec<u8> = (0..100u32).map(|i| (i * 7 % 256) as u8).collect();
    let (k, m) = (3u8, 2u8);
    let (shards, shard_len) = coded(&body, k, m);
    let total = (k + m) as usize;
    for mask in 0u32..(1 << total) {
        if mask.count_ones() as u8 != k {
            continue;
        }
        let mut damaged = shards.clone();
        for s in 0..total {
            if mask & (1 << s) == 0 {
                for b in damaged[s * shard_len..(s + 1) * shard_len].iter_mut() {
                    *b = 0xAA;
                }
            }
        }
        assert_eq!(reconstruct(&mut damaged, shard_len, k, m, mask), Ok(()));
        assert_eq!(damaged, shards);
    }
}

#[test]
fn too_few_shards_are_refused() {
    let (mut shards, shard_len) = coded(b"0123456789", 3, 2);
    assert_eq!(
        reconstruct(&mut shards, shard_len, 3, 2, 0b00011),
        Err(EcError::NotEnoughShards { present: 2, need: 3 })
    );
}

#[test]
fn bad_parameters_are_refused() {
    let mut shards = vec![0u8; 64];
    assert_eq!(encode(b"abc", 0, 2, &mut shards), Err(EcError::BadParams));
    assert_eq!(encode(b"abc", 15, 2, &mut shards), Err(EcError::BadParams));
    assert_eq!(reconstruct(&mut shards, 4, 0, 1, 1), Err(EcError::BadParams));
}

#[test]
fn a_small_buffer_is_refused() {
    let mut shards = vec![0u8; 5];
    assert_eq!(
        encode(b"abcdefgh", 2, 1, &mut shards),
        Err(EcError::BufferTooSmall { needed: 12, actual: 5 })
    );
    let mut out = vec![0u8; 2];
    assert_eq!(
        body_from_shards(&[1, 2, 3, 4], 2, 2, 4, &mut out),
        Err(EcError::BufferTooSmall { needed: 4, actual: 2 })
    );
    let mut out = [0u8; 5];
    assert_eq!(
        body_from_shards(&[1, 2, 3, 4], 2, 2, 5, &mut out),
        Err(EcError::BodyTooLarge { len: 5, max: 4 })
    );
    assert_eq!(out, [0u8; 5]);
    assert_eq!(body_from_shards(&[1, 2, 3, 4], 2, 0, 5, &mut out), Err(EcError::BadParams));
    assert_eq!(body_from_shards(&[1, 2, 3, 4], 0, 2, 5, &mut out), Err(EcError::BadParams));
}
