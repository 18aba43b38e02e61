//! Tests of the rank metrics over f32 scores (given by their bit patterns).

use lib::metrics::{argsort, ranks, topk_overlap, total_order_key};

fn bits(v: &[f32]) -> Vec<u32> {
    v.iter().map(|x| x.to_bits()).collect()
}

#[test]
fn total_order_key_matches_total_cmp() {
    let vals = [-f32::INFINITY, -2.5, -1.0, -0.0, 0.0, 1e-30, 1.0, 3.5, f32::INFINITY];
    for a in vals {
        for b in vals {
            let ka = total_order_key(a.to_bits());
            let kb = total_order_key(b.to_bits());
            assert_eq!(ka.cmp(&kb), a.total_cmp(&b), "{a} vs {b}");
        }
    }
    assert_eq!(total_order_key(0), 0);
    assert_eq!(total_order_key(0x8000_0000), -1);
}

#[test]
fn ranks_are_zero_based_positions() {
    let v = bits(&[0.3, -1.0, 2.0, 0.1]);
    assert_eq!(ranks(&v), vec![2, 0, 3, 1]);
    assert!(ranks(&bits(&[])).is_empty());
}

#[test]
fn ranks_break_ties_by_index() {
    let v = bits(&[1.0, 1.0, 0.5, 1.0]);
    assert_eq!(ranks(&v), vec![1, 2, 0, 3]);
}

#[test]
fn argsort_is_stable_both_ways() {
    let v = bits(&[2.0, -3.0, 2.0, 7.0, -3.0]);
    assert_eq!(argsort(&v, false), vec![1, 4, 0, 2, 3]);
    assert_eq!(argsort(&v, true), vec![3, 0, 2, 1, 4]);
}

#[test]
fn topk_overlap_counts_shared_top_indices() {
    let truth = bits(&[5.0, 4.0, 3.0, 2.0, 1.0]);
    let approx = bits(&[5.0, 1.0, 4.0, 3.0, 2.0]);
    // top-2: {0, 1} vs {0, 2}
    assert_eq!(topk_overlap(&truth, &approx, 2), 1);
    // top-3: {0, 1, 2} vs {0, 2, 3}
    assert_eq!(topk_overlap(&truth, &approx, 3), 2);
    assert_eq!(topk_overlap(&truth, &approx, 5), 5);
    assert_eq!(topk_overlap(&truth, &approx, 0), 0);
}

#[test]
fn topk_overlap_with_itself_is_min_k_n() {
    let v = bits(&[0.7, -0.2, 1.5, 0.7]);
    for k in 0..7 {
        assert_eq!(topk_overlap(&v, &v, k), k.min(v.len()));
    }
}

#[test]
fn topk_overlap_of_different_lengths() {
    let truth = bits(&[1.0, 2.0, 3.0, 4.0]);
    let approx = bits(&[9.0, 8.0]);
    // top-2: {3, 2} vs {0, 1}
    assert_eq!(topk_overlap(&truth, &approx, 2), 0);
    // top-4: {0, 1, 2, 3} vs {0, 1}
    assert_eq!(topk_overlap(&truth, &approx, 4), 2);
}
