use p2_quantile::p2::{P2, P2Error};

fn est(q: f64) -> P2 {
    P2::new(q.to_bits()).unwrap()
}

fn heights_of(p: &P2) -> Vec<f64> {
    p.heights.iter().map(|b| f64::from_bits(*b)).collect()
}

/// A small deterministic pseudo-random generator for test streams.
fn next_uniform(state: &mut u64) -> f64 {
    *state = state.wrapping_mul(6364136223846793005).wrapping_add(1442695040888963407);
    (*state >> 11) as f64 / (1u64 << 53) as f64
}

#[test]
fn test_p2() {
    let mut p2 = P2::new((0.3f64).to_bits()).unwrap();

    for i in 1..=100 {
        p2.append((i as f64).to_bits());
    }

    let x = f64::from_bits(p2.value());
    assert_eq!(x, 30.0);
}

#[test]
fn construction_accepts_unit_interval() {
    for q in [0.0f64, 0.25, 0.3, 0.5, 0.99, 1.0] {
        assert!(P2::new(q.to_bits()).is_ok());
    }
}

#[test]
fn construction_rejects_out_of_range() {
    for q in [-0.1, -1.0, 1.0000001, 1.5, 100.0, f64::NEG_INFINITY, f64::INFINITY] {
        match P2::new(q.to_bits()) {
            Err(e) => assert_eq!(e, P2Error::InvalidArgument),
            Ok(_) => panic!("constructing with a quantile outside [0, 1] must fail"),
        }
    }
}

#[test]
fn construction_derives_marker_parameters() {
    let q = 0.4f64;
    let p = est(q);
    let dn: Vec<f64> = p.dn.iter().map(|b| f64::from_bits(*b)).collect();
    let n_pos: Vec<f64> = p.n_pos.iter().map(|b| f64::from_bits(*b)).collect();
    assert_eq!(dn, vec![0.0, q / 2.0, q, (1.0 + q) / 2.0, 1.0]);
    assert_eq!(n_pos, vec![0.0, 2.0 * q, 4.0 * q, 2.0 + 2.0 * q, 4.0]);
    assert_eq!(p.pos, [0, 1, 2, 3, 4]);
    assert!(!p.filled);
    assert!(p.heights.is_empty());
}

#[test]
fn warmup_empty_returns_zero() {
    let mut p = est(0.5);
    assert_eq!(f64::from_bits(p.value()), 0.0);
}

#[test]
fn warmup_single_returns_the_observation() {
    let mut p = est(0.9);
    p.append((42.5f64).to_bits());
    assert_eq!(f64::from_bits(p.value()), 42.5);
}

#[test]
fn warmup_middle_rank() {
    // Three observations with p = 0.5: rank floor(1.5) = 1, the middle
    // of the sorted buffer.
    let mut p = est(0.5);
    for v in [9.0f64, 1.0, 5.0] {
        p.append(v.to_bits());
    }
    assert_eq!(f64::from_bits(p.value()), 5.0);
}

#[test]
fn warmup_low_rank() {
    // Four observations with p = 0: rank 0, the minimum.
    let mut p = est(0.0);
    for v in [4.0f64, 2.0, 8.0, 6.0] {
        p.append(v.to_bits());
    }
    assert_eq!(f64::from_bits(p.value()), 2.0);
}

#[test]
fn warmup_rank_clamps_to_last() {
    // Four observations with p = 1: rank 4 clamps to index 3, the maximum.
    let mut p = est(1.0);
    for v in [4.0f64, 2.0, 8.0, 6.0] {
        p.append(v.to_bits());
    }
    assert_eq!(f64::from_bits(p.value()), 8.0);
}

#[test]
fn fifth_observation_seeds_sorted_markers() {
    let mut p = est(0.5);
    for v in [9.0f64, 1.0, 5.0, 7.0, 3.0] {
        p.append(v.to_bits());
    }
    assert!(p.filled);
    assert_eq!(heights_of(&p), vec![1.0, 3.0, 5.0, 7.0, 9.0]);
    assert_eq!(f64::from_bits(p.value()), 5.0);
}

#[test]
fn extreme_low_quantile_tracks_minimum() {
    let mut p = est(0.0);
    for _ in 0..5 {
        p.append((1.0f64).to_bits());
    }
    for v in 2..50 {
        p.append((v as f64).to_bits());
    }
    assert_eq!(f64::from_bits(p.value()), 1.0);
}

#[test]
fn extreme_high_quantile_tracks_maximum() {
    let mut p = est(1.0);
    for _ in 0..5 {
        p.append((100.0f64).to_bits());
    }
    for v in (50..100).rev() {
        p.append((v as f64).to_bits());
    }
    assert_eq!(f64::from_bits(p.value()), 100.0);
}

#[test]
fn heights_stay_monotone_and_outer_markers_track_extremes() {
    let mut p = est(0.5);
    let mut state: u64 = 0x12345678;
    let mut mn = f64::INFINITY;
    let mut mx = f64::NEG_INFINITY;
    for i in 0..500 {
        let v = next_uniform(&mut state) * 200.0 - 100.0;
        mn = if v < mn { v } else { mn };
        mx = if v > mx { v } else { mx };
        p.append(v.to_bits());
        if i >= 4 {
            let h = heights_of(&p);
            for j in 0..4 {
                assert!(h[j] <= h[j + 1]);
                assert!(p.pos[j] < p.pos[j + 1]);
            }
            assert_eq!(h[0], mn);
            assert_eq!(h[4], mx);
        }
    }
}

#[test]
fn converges_to_the_sample_median() {
    let mut p = est(0.5);
    let mut state: u64 = 0xDEADBEEF;
    let mut vals = Vec::new();
    for _ in 0..10_000 {
        let v = next_uniform(&mut state);
        vals.push(v);
        p.append(v.to_bits());
    }
    vals.sort_by(|a, b| a.partial_cmp(b).unwrap());
    let median = (vals[4999] + vals[5000]) / 2.0;
    let estimate = f64::from_bits(p.value());
    assert!((estimate - median).abs() < 0.02);
}
