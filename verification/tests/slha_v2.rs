//! Tests of the SLHA v2 tile codec: signed INT4 nibbles, Hamming identity,
//! WARM rule.

use lib::attention::slha_v2::{
    nibble_for_level, pack_levels, SciRustSlhaTile, D_C, D_S, FLAG_HOT, FLAG_NF4, FLAG_WARM,
    LATENT_BYTES, N_GROUPS, RESIDUAL_WORDS,
};
use lib::slha_c::{process_tile_status, SLHA_ERR_NULL, SLHA_OK};

fn tile_from(latent_kv: [u8; LATENT_BYTES], residual_bitmap: [u64; RESIDUAL_WORDS]) -> SciRustSlhaTile {
    SciRustSlhaTile {
        latent_kv,
        residual_bitmap,
        scale_bits: 1.0f32.to_bits(),
        dynamic_lambda_bits: 0.5f32.to_bits(),
        residual_sigma_bits: 0.0f32.to_bits(),
        token_id: 0,
        position: 0,
        head_id: 0,
        flags: FLAG_HOT,
        group_scales: [255; N_GROUPS],
    }
}

#[test]
fn int4_levels_round_trip_signed_values() {
    // Levels spanning both signs survive pack -> unpack exactly, and
    // negative levels stay negative (zero-point 8).
    let mut levels = [0i32; D_C];
    for (i, x) in levels.iter_mut().enumerate() {
        *x = (i as i32 % 16) - 8;
    }
    let packed = pack_levels(&levels);
    let tile = tile_from(packed, [0; RESIDUAL_WORDS]);
    let dq = tile.levels();
    assert_eq!(dq.len(), D_C);
    assert!(dq.iter().any(|&x| x < 0), "no negative values reconstructed");
    for d in 0..D_C {
        assert_eq!(dq[d] as i32, levels[d], "dim {d}");
        assert_eq!(tile.level_at(d) as i32, levels[d]);
    }
}

#[test]
fn pack_levels_clamps_to_int4_range() {
    let mut levels = [0i32; D_C];
    levels[0] = -100;
    levels[1] = 100;
    levels[2] = -8;
    levels[3] = 7;
    levels[4] = i32::MIN;
    levels[5] = i32::MAX;
    let packed = pack_levels(&levels);
    // dim 0 -> nibble 0 (low), dim 1 -> nibble 15 (high)
    assert_eq!(packed[0], 0xF0);
    assert_eq!(packed[1], 0xF0);
    assert_eq!(packed[2], 0xF0);
    // level 0 is nibble 8 in both halves
    assert_eq!(packed[3], 0x88);
    let tile = tile_from(packed, [0; RESIDUAL_WORDS]);
    assert_eq!(tile.level_at(0), -8);
    assert_eq!(tile.level_at(1), 7);
    assert_eq!(tile.level_at(4), -8);
    assert_eq!(tile.level_at(5), 7);
    assert_eq!(nibble_for_level(-3), 5);
}

#[test]
fn nibbles_follow_dimension_order() {
    // Byte 0x77 -> dims 0,1 at nibble 7 (level -1); 0x88 -> dims 2,3 level 0;
    // 0x4C -> dim 4 low nibble 0xC (level 4), dim 5 high nibble 4 (level -4).
    let mut latent = [0u8; LATENT_BYTES];
    latent[0] = 0x77;
    latent[1] = 0x88;
    latent[2] = 0x4C;
    let tile = tile_from(latent, [0; RESIDUAL_WORDS]);
    assert_eq!(tile.nibble_at(0), 7);
    assert_eq!(tile.nibble_at(1), 7);
    assert_eq!(tile.level_at(2), 0);
    assert_eq!(tile.nibble_at(4), 0xC);
    assert_eq!(tile.nibble_at(5), 4);
    assert_eq!(tile.level_at(4), 4);
    assert_eq!(tile.level_at(5), -4);
    assert_eq!(tile.level_at(6), -8);
}

#[test]
fn hamming_and_binary_term() {
    let tile = tile_from([0x88; LATENT_BYTES], [0; RESIDUAL_WORDS]);
    // Identical signs: Hamming 0, binary term +d_s.
    assert_eq!(tile.hamming_distance(&[0; RESIDUAL_WORDS]), 0);
    assert_eq!(tile.binary_term(&[0; RESIDUAL_WORDS]), D_S as i32);
    // Opposite signs everywhere: Hamming d_s, binary term -d_s.
    assert_eq!(tile.hamming_distance(&[u64::MAX; RESIDUAL_WORDS]), D_S as u32);
    assert_eq!(tile.binary_term(&[u64::MAX; RESIDUAL_WORDS]), -(D_S as i32));
    // popcount(0b1011) + popcount(1 << 63) + 0 + popcount(0xFF) = 3 + 1 + 0 + 8 = 12
    let q = [0b1011u64, 1u64 << 63, 0, 0xFF];
    assert_eq!(tile.hamming_distance(&q), 12);
    assert_eq!(tile.binary_term(&q), 256 - 24);
}

#[test]
fn hamming_matches_bruteforce() {
    let b = [0x0123_4567_89AB_CDEFu64, 0xDEAD_BEEF_0000_FFFF, 0x5555_5555_5555_5555, 7];
    let tile = tile_from([0; LATENT_BYTES], b);
    let q = [0xFFFF_0000_FFFF_0000u64, 0x1234_5678_9ABC_DEF0, 0xAAAA_AAAA_AAAA_AAAA, 1 << 40];
    let mut brute = 0u32;
    let mut sign_dot = 0i32;
    for w in 0..RESIDUAL_WORDS {
        for bit in 0..64 {
            let a = (q[w] >> bit) & 1;
            let c = (b[w] >> bit) & 1;
            if a != c {
                brute += 1;
                sign_dot -= 1;
            } else {
                sign_dot += 1;
            }
        }
    }
    assert_eq!(tile.hamming_distance(&q), brute);
    assert_eq!(tile.binary_term(&q), sign_dot);
}

#[test]
fn warm_tile_drops_the_binary_term() {
    let q = [0x1234u64, 0, 0, 0];
    let mut tile = tile_from([0x88; LATENT_BYTES], [1, 2, 3, 4]);
    assert!(!tile.is_warm());
    assert_eq!(tile.binary_contribution(&q), Some(tile.binary_term(&q)));
    tile.flags |= FLAG_WARM;
    assert!(tile.is_warm());
    assert_eq!(tile.binary_contribution(&q), None);
    assert!(!tile.is_nf4());
    tile.flags |= FLAG_NF4;
    assert!(tile.is_nf4());
    assert!(tile.is_warm());
}

#[test]
fn group_scale_code_follows_groups_of_16() {
    let mut tile = tile_from([0; LATENT_BYTES], [0; RESIDUAL_WORDS]);
    tile.group_scales = [10, 20, 30, 40, 50, 60, 70, 80];
    assert_eq!(tile.group_scale_code(0), 10);
    assert_eq!(tile.group_scale_code(15), 10);
    assert_eq!(tile.group_scale_code(16), 20);
    assert_eq!(tile.group_scale_code(127), 80);
}

#[test]
fn impact_key_orders_sigma() {
    let mut a = tile_from([0; LATENT_BYTES], [0; RESIDUAL_WORDS]);
    let mut b = a;
    a.residual_sigma_bits = 0.25f32.to_bits();
    b.residual_sigma_bits = 0.5f32.to_bits();
    assert!(a.impact_key() < b.impact_key());
    b.residual_sigma_bits = (-0.5f32).to_bits();
    assert!(b.impact_key() < a.impact_key());
}

#[test]
fn process_tile_status_rejects_null_pointers() {
    assert_eq!(process_tile_status(false, false, false, false), SLHA_OK);
    assert_eq!(process_tile_status(true, false, false, false), SLHA_ERR_NULL);
    assert_eq!(process_tile_status(false, true, false, false), SLHA_ERR_NULL);
    assert_eq!(process_tile_status(false, false, true, false), SLHA_ERR_NULL);
    assert_eq!(process_tile_status(false, false, false, true), SLHA_ERR_NULL);
}
