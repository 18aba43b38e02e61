//! Integration tests for the CCOS elastic KV-cache (Soft-Paging HOT/WARM/COLD).

use lib::attention::slha_v2::{SciRustSlhaTile, FLAG_HOT, FLAG_WARM, N_GROUPS, RESIDUAL_WORDS};
use lib::ccos::{ElasticKvCache, PageOutPolicy, TileState, HOT_BYTES, WARM_BYTES};

/// A HOT tile for token `i` whose residual energy estimate is `sigma`.
fn tile_with_sigma(i: u32, sigma: f32) -> SciRustSlhaTile {
    let mut latent_kv = [0u8; 64];
    for (b, x) in latent_kv.iter_mut().enumerate() {
        *x = (b as u8).wrapping_mul(37).wrapping_add(i as u8);
    }
    SciRustSlhaTile {
        latent_kv,
        residual_bitmap: [
            0x0123_4567_89AB_CDEF ^ i as u64,
            0xFEDC_BA98_7654_3210,
            0x0F0F_0F0F_0F0F_0F0F,
            u64::from(i) << 7,
        ],
        scale_bits: 0.25f32.to_bits(),
        dynamic_lambda_bits: (sigma * 0.078).to_bits(),
        residual_sigma_bits: sigma.to_bits(),
        token_id: i,
        position: i,
        head_id: 0,
        flags: FLAG_HOT,
        group_scales: [255; N_GROUPS],
    }
}

/// Deterministic residual energies in (0, 1).
fn sigma_for(seed: u64, i: u64) -> f32 {
    let mut x = seed.wrapping_mul(0x9E37_79B9_7F4A_7C15).wrapping_add(i.wrapping_mul(0xBF58_476D_1CE4_E5B9));
    x ^= x >> 31;
    x = x.wrapping_mul(0x94D0_49BB_1331_11EB);
    x ^= x >> 29;
    ((x >> 40) as f32 / (1u64 << 24) as f32) * 0.9 + 0.05
}

#[test]
fn enforce_budget_bounds_live_bytes() {
    let budget = 50 * HOT_BYTES;
    let mut cache = ElasticKvCache::new(budget, PageOutPolicy::LowestImpactFirst);
    for i in 0..100u32 {
        cache.insert(tile_with_sigma(i, sigma_for(42, i as u64)));
    }
    assert!(cache.live_bytes() > budget);
    cache.enforce_budget();
    assert!(
        cache.live_bytes() <= budget,
        "live={} > budget={budget}",
        cache.live_bytes()
    );
    let (_hot, warm, cold) = cache.counts();
    assert!(warm + cold > 0, "nothing was paged/evicted");
}

#[test]
fn evict_recycles_slots() {
    let mut cache = ElasticKvCache::new(usize::MAX, PageOutPolicy::OldestFirst);
    let s0 = cache.insert(tile_with_sigma(0, 0.3));
    let _s1 = cache.insert(tile_with_sigma(1, 0.3));
    cache.evict(s0);
    assert_eq!(cache.state(s0), TileState::Cold);
    let s2 = cache.insert(tile_with_sigma(2, 0.3));
    assert_eq!(s2, s0, "the freed COLD slot should be recycled");
    assert_eq!(cache.state(s2), TileState::Hot);
}

#[test]
fn page_out_policies_differ() {
    // sigma_E decreasing with slot order -> slot 4 is lowest-impact.
    let rhos = [0.9f32, 0.7, 0.5, 0.3, 0.1];
    let n = rhos.len();
    let fill = |c: &mut ElasticKvCache| {
        for (i, &r) in rhos.iter().enumerate() {
            c.insert(tile_with_sigma(i as u32, r));
        }
    };
    let budget = n * HOT_BYTES - 1; // forces exactly one page-out

    let mut lo = ElasticKvCache::new(budget, PageOutPolicy::LowestImpactFirst);
    fill(&mut lo);
    lo.enforce_budget();

    let mut old = ElasticKvCache::new(budget, PageOutPolicy::OldestFirst);
    fill(&mut old);
    old.enforce_budget();

    // OldestFirst pages slot 0; LowestImpactFirst pages the lowest-sigma_E (last) slot.
    assert_eq!(old.state(0), TileState::Warm);
    assert_eq!(old.state(n - 1), TileState::Hot);
    assert_eq!(lo.state(n - 1), TileState::Warm);
    assert_eq!(lo.state(0), TileState::Hot);
}

#[test]
fn score_all_skips_cold() {
    let q_sign = [0xAAAA_AAAA_AAAA_AAAAu64; RESIDUAL_WORDS];
    let mut cache = ElasticKvCache::new(usize::MAX, PageOutPolicy::OldestFirst);
    for i in 0..6u32 {
        cache.insert(tile_with_sigma(i, 0.3));
    }
    cache.evict(2);
    let scored = cache.score_all(|t: &SciRustSlhaTile| t.binary_term(&q_sign));
    assert_eq!(scored.len(), 5);
    assert!(scored.iter().all(|&(s, _)| s != 2));
}

#[test]
fn page_out_masks_residual_and_frees_32_bytes() {
    let mut cache = ElasticKvCache::new(usize::MAX, PageOutPolicy::LowestImpactFirst);
    let slot = cache.insert(tile_with_sigma(0, 0.5));
    assert_eq!(cache.live_bytes(), HOT_BYTES);
    let q_sign = [0u64; RESIDUAL_WORDS];
    assert!(cache.get(slot).unwrap().binary_contribution(&q_sign).is_some());
    cache.page_out(slot);
    assert_eq!(cache.state(slot), TileState::Warm);
    assert_eq!(cache.live_bytes(), WARM_BYTES);
    let t = cache.get(slot).unwrap();
    assert!(t.is_warm());
    assert_eq!(t.residual_bitmap, [0u64; RESIDUAL_WORDS]);
    assert_eq!(t.dynamic_lambda_bits, 0);
    assert_eq!(f32::from_bits(t.residual_sigma_bits), 0.5);
    assert_eq!(t.binary_contribution(&q_sign), None);
    // Paging out twice changes nothing.
    cache.page_out(slot);
    assert_eq!(cache.live_bytes(), WARM_BYTES);
}

#[test]
fn counts_and_bytes_agree() {
    let mut cache = ElasticKvCache::with_budget(usize::MAX);
    assert_eq!(cache.policy(), PageOutPolicy::Hybrid);
    assert_eq!(PageOutPolicy::default(), PageOutPolicy::Hybrid);
    for i in 0..7u32 {
        cache.insert(tile_with_sigma(i, 0.1 * i as f32));
    }
    cache.page_out(1);
    cache.page_out(3);
    cache.evict(5);
    cache.evict(3);
    assert_eq!(cache.counts(), (4, 1, 2));
    assert_eq!(cache.live_bytes(), 4 * HOT_BYTES + WARM_BYTES);
    assert_eq!(cache.len(), 7);
    assert!(cache.get(5).is_none());
    assert!(cache.get(1).is_some());
    // Most recently freed slot is recycled first.
    assert_eq!(cache.insert(tile_with_sigma(9, 0.2)), 3);
    assert_eq!(cache.insert(tile_with_sigma(10, 0.2)), 5);
    assert_eq!(cache.insert(tile_with_sigma(11, 0.2)), 7);
    assert_eq!(cache.counts(), (7, 1, 0));
}

#[test]
fn inserting_a_warm_flagged_tile_stores_it_paged_out() {
    let mut cache = ElasticKvCache::new(usize::MAX, PageOutPolicy::OldestFirst);
    let mut t = tile_with_sigma(0, 0.4);
    t.flags |= FLAG_WARM;
    let slot = cache.insert(t);
    assert_eq!(cache.state(slot), TileState::Warm);
    assert_eq!(cache.live_bytes(), WARM_BYTES);
    assert_eq!(cache.get(slot).unwrap().residual_bitmap, [0u64; RESIDUAL_WORDS]);
}

#[test]
fn enforce_budget_within_budget_changes_nothing() {
    let mut cache = ElasticKvCache::new(3 * HOT_BYTES, PageOutPolicy::OldestFirst);
    for i in 0..3u32 {
        cache.insert(tile_with_sigma(i, 0.5));
    }
    cache.enforce_budget();
    assert_eq!(cache.counts(), (3, 0, 0));
}

#[test]
fn enforce_budget_evicts_after_paging_everything() {
    // 4 tiles; budget admits two WARM tiles only: page all four, then evict two.
    for (policy, evicted) in [
        (PageOutPolicy::OldestFirst, [0usize, 1]),
        (PageOutPolicy::Hybrid, [0, 1]),
        (PageOutPolicy::LowestImpactFirst, [3, 2]),
    ] {
        let mut cache = ElasticKvCache::new(2 * WARM_BYTES + 10, policy);
        for (i, s) in [0.8f32, 0.6, 0.4, 0.2].iter().enumerate() {
            cache.insert(tile_with_sigma(i as u32, *s));
        }
        cache.enforce_budget();
        assert_eq!(cache.counts(), (0, 2, 2));
        assert_eq!(cache.live_bytes(), 2 * WARM_BYTES);
        for s in evicted {
            assert_eq!(cache.state(s), TileState::Cold, "{policy:?}");
        }
        // The evicted slots are recycled, last evicted first.
        assert_eq!(cache.insert(tile_with_sigma(9, 0.5)), evicted[1]);
    }
}

#[test]
fn hybrid_pages_by_sigma() {
    let mut cache = ElasticKvCache::new(3 * HOT_BYTES + WARM_BYTES, PageOutPolicy::Hybrid);
    for (i, s) in [0.8f32, 0.1, 0.4, 0.6].iter().enumerate() {
        cache.insert(tile_with_sigma(i as u32, *s));
    }
    cache.enforce_budget();
    assert_eq!(cache.state(1), TileState::Warm);
    assert_eq!(cache.counts(), (3, 1, 0));
}

#[test]
fn zero_budget_evicts_everything() {
    let mut cache = ElasticKvCache::new(0, PageOutPolicy::LowestImpactFirst);
    for i in 0..5u32 {
        cache.insert(tile_with_sigma(i, 0.5));
    }
    cache.enforce_budget();
    assert_eq!(cache.live_bytes(), 0);
    assert_eq!(cache.counts(), (0, 0, 5));
    assert!(cache.score_all(|t: &SciRustSlhaTile| t.token_id).is_empty());
}
