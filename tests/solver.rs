use openrank_core::et::{
    convergence_check, is_converged, is_converged_verifier, iteration, normalise_lt,
    normalise_scores, normalise_seed, positive_run, pre_process, DELTA,
};
use openrank_core::merkle::compute_root;
use openrank_core::trust::OutboundLocalTrust;

fn bits(x: f32) -> u32 {
    x.to_bits()
}

fn value(b: u32) -> f32 {
    f32::from_bits(b)
}

fn row(entries: &[(u64, f32)]) -> OutboundLocalTrust {
    let mut r = OutboundLocalTrust::new();
    for (to, v) in entries {
        r.insert(*to, bits(*v));
    }
    r
}

fn two_cycle() -> (Vec<Option<OutboundLocalTrust>>, Vec<Option<u32>>) {
    (
        vec![Some(row(&[(1, 1.0)])), Some(row(&[(0, 1.0)]))],
        vec![Some(bits(1.0)), None],
    )
}

fn unreachable_third() -> (Vec<Option<OutboundLocalTrust>>, Vec<Option<u32>>) {
    (
        vec![Some(row(&[(1, 1.0)])), None, Some(row(&[(0, 1.0)]))],
        vec![Some(bits(1.0)), None, None],
    )
}

fn submitted(scores: &[(u64, u32)]) -> Vec<Option<u32>> {
    scores.iter().map(|(_, v)| Some(*v)).collect()
}

fn total(scores: &[(u64, u32)]) -> f32 {
    scores.iter().map(|(_, v)| value(*v)).sum()
}

#[test]
fn trivial_uniform_scores_and_root() {
    let scores = positive_run(vec![None, None], vec![None, None], 2);
    assert_eq!(scores, vec![(0, bits(0.5)), (1, bits(0.5))]);
    let root = compute_root(&scores).unwrap();
    let leaf = openrank_core::merkle::score_leaf(bits(0.5));
    let expected = openrank_core::merkle::hash_two(&leaf, &leaf);
    assert_eq!(root, expected);
}

#[test]
fn empty_seed_gives_uniform_distribution() {
    let scores = positive_run(vec![None, None, None, None], vec![None, None, None, None], 4);
    assert_eq!(
        scores,
        vec![(0, bits(0.25)), (1, bits(0.25)), (2, bits(0.25)), (3, bits(0.25))]
    );
}

#[test]
fn zero_seed_is_rescued_like_an_empty_one() {
    let scores = positive_run(vec![None, None], vec![Some(bits(0.0)), None], 2);
    assert_eq!(scores, vec![(0, bits(0.5)), (1, bits(0.5))]);
}

#[test]
fn single_peer_self_edge_only() {
    let scores = positive_run(vec![Some(row(&[(0, 1.0)]))], vec![Some(bits(1.0))], 1);
    assert_eq!(scores, vec![(0, bits(1.0))]);
}

#[test]
fn unreachable_peer_is_pruned() {
    let (mut lt, mut seed) = unreachable_third();
    pre_process(&mut lt, &mut seed, 3);
    assert!(lt[0].is_some());
    assert!(lt[1].is_some());
    assert!(lt[2].is_none());
    let (lt, seed) = unreachable_third();
    let scores = positive_run(lt, seed, 3);
    assert_eq!(scores[2], (2, bits(0.0)));
    assert_eq!(scores, vec![(0, 0x3f2a_0000), (1, 0x3eac_0000), (2, 0)]);
}

#[test]
fn dangling_row_takes_the_seed() {
    let (mut lt, mut seed) = unreachable_third();
    pre_process(&mut lt, &mut seed, 3);
    let r1 = lt[1].as_ref().unwrap();
    assert_eq!(r1.outbound_trust_scores(), &vec![(0, bits(1.0))]);
    assert_eq!(r1.outbound_sum(), bits(1.0));
}

#[test]
fn two_cycle_regression_fixture() {
    let (lt, seed) = two_cycle();
    let scores = positive_run(lt, seed, 2);
    assert_eq!(scores, vec![(0, 0x3f2a_0000), (1, 0x3eac_0000)]);
    assert_eq!(value(scores[0].1), 0.6640625);
    assert_eq!(value(scores[1].1), 0.3359375);
}

#[test]
fn solver_output_sums_to_one() {
    let graphs = vec![two_cycle(), unreachable_third()];
    for (lt, seed) in graphs {
        let n = lt.len() as u64;
        let scores = positive_run(lt, seed, n);
        assert!((total(&scores) - 1.0).abs() < 1e-4);
    }
    let lt = vec![
        Some(row(&[(1, 0.3), (2, 0.7)])),
        Some(row(&[(2, 2.0), (3, 1.0)])),
        None,
        Some(row(&[(0, 5.0), (1, 1.0), (2, 1.0)])),
    ];
    let seed = vec![Some(bits(0.6)), Some(bits(0.4)), None, None];
    let scores = positive_run(lt, seed, 4);
    assert!((total(&scores) - 1.0).abs() < 1e-4);
}

#[test]
fn normalised_rows_sum_to_one() {
    let lt = vec![
        Some(row(&[(1, 0.3), (2, 0.2), (3, 0.7)])),
        Some(row(&[(0, 1.0), (2, 3.0)])),
        Some(row(&[(0, 0.0)])),
        None,
    ];
    let norm = normalise_lt(&lt);
    for r in norm.iter().take(2) {
        let r = r.as_ref().unwrap();
        let sum: f32 = r.outbound_trust_scores().iter().map(|(_, v)| value(*v)).sum();
        assert!((sum - 1.0).abs() < 1e-6);
    }
    assert_eq!(norm[1].as_ref().unwrap().outbound_trust_scores(), &vec![(0, bits(0.25)), (2, bits(0.75))]);
    assert!(norm[2].as_ref().unwrap().outbound_trust_scores().is_empty());
    assert!(norm[3].is_none());
}

#[test]
fn normalise_scores_divides_by_the_sum() {
    let r = normalise_scores(&vec![bits(1.0), bits(3.0)]);
    assert_eq!(r, vec![bits(0.25), bits(0.75)]);
    let s = normalise_seed(&vec![Some(bits(2.0)), None, Some(bits(6.0))]);
    assert_eq!(s, vec![bits(0.25), 0, bits(0.75)]);
}

#[test]
fn iteration_mixes_seed_and_propagated_scores() {
    let lt = vec![Some(row(&[(1, 1.0)])), None];
    let next = iteration(&lt, &vec![bits(1.0), 0], &vec![bits(1.0), 0]);
    assert_eq!(next, vec![bits(0.5), bits(0.5)]);
    let lt = vec![Some(row(&[(0, 0.5), (1, 0.5)])), Some(row(&[(0, 1.0)]))];
    let next = iteration(&lt, &vec![bits(1.0), 0], &vec![bits(0.5), bits(0.5)]);
    assert_eq!(next, vec![bits(0.875), bits(0.125)]);
}

#[test]
fn verifier_accepts_solver_output() {
    for (lt, seed) in vec![two_cycle(), unreachable_third()] {
        let n = lt.len() as u64;
        let (lt2, seed2) = (lt.iter().map(|r| r.as_ref().map(|r| r.duplicate())).collect(), seed.clone());
        let scores = positive_run(lt, seed, n);
        assert!(convergence_check(lt2, seed2, &submitted(&scores), n));
    }
}

#[test]
fn solver_output_is_near_its_next_iterate() {
    let (mut lt, mut seed) = two_cycle();
    let (lt0, seed0) = two_cycle();
    let scores = positive_run(lt0, seed0, 2);
    pre_process(&mut lt, &mut seed, 2);
    let lt_n = normalise_lt(&lt);
    let seed_n = normalise_seed(&seed);
    let current: Vec<u32> = scores.iter().map(|(_, v)| *v).collect();
    let next = normalise_scores(&iteration(&lt_n, &seed_n, &current));
    for i in 0..2 {
        assert!((value(next[i]) - value(current[i])).abs() <= 0.01);
    }
}

#[test]
fn verifier_rejects_distant_scores() {
    let (lt, seed) = two_cycle();
    let far = vec![Some(bits(0.0)), Some(bits(1.0))];
    assert!(!convergence_check(lt, seed, &far, 2));
}

#[test]
fn solver_runs_are_deterministic() {
    let (lt1, seed1) = unreachable_third();
    let (lt2, seed2) = unreachable_third();
    let a = positive_run(lt1, seed1, 3);
    let b = positive_run(lt2, seed2, 3);
    assert_eq!(a, b);
    assert_eq!(compute_root(&a).unwrap(), compute_root(&b).unwrap());
}

#[test]
fn no_self_trust_after_pre_process() {
    let mut lt = vec![
        Some(row(&[(0, 1.0), (1, 1.0)])),
        Some(row(&[(0, 1.0), (1, 2.0)])),
    ];
    let mut seed = vec![Some(bits(1.0)), Some(bits(1.0))];
    pre_process(&mut lt, &mut seed, 2);
    for (i, r) in lt.iter().enumerate() {
        let r = r.as_ref().unwrap();
        assert!(r.outbound_trust_scores().iter().all(|(k, _)| *k != i as u64));
        assert_eq!(r.outbound_sum(), bits(1.0));
    }
}

#[test]
fn retained_rows_are_reachable() {
    let mut lt = vec![
        Some(row(&[(1, 1.0)])),
        Some(row(&[(0, 1.0)])),
        Some(row(&[(3, 1.0)])),
        Some(row(&[(2, 1.0), (0, 1.0)])),
    ];
    let mut seed = vec![Some(bits(1.0)), None, None, None];
    pre_process(&mut lt, &mut seed, 4);
    assert!(lt[0].is_some() && lt[1].is_some());
    assert!(lt[2].is_none() && lt[3].is_none());
}

#[test]
fn zero_weight_edges_do_not_reach() {
    let mut lt = vec![Some(row(&[(1, 1.0), (2, 0.0)])), Some(row(&[(0, 1.0)])), Some(row(&[(0, 1.0)]))];
    let mut seed = vec![Some(bits(1.0)), None, None];
    pre_process(&mut lt, &mut seed, 3);
    assert!(lt[2].is_none());
}

#[test]
fn convergence_boundary_is_strict_for_the_solver_only() {
    assert_eq!(is_converged(&vec![0], &vec![DELTA]), (false, 1));
    assert_eq!(is_converged_verifier(&vec![Some(0)], &vec![DELTA]), (true, 0));
    assert_eq!(value(DELTA), 0.01);
}

#[test]
fn convergence_counts_unconverged_scores() {
    let a = vec![bits(0.5), bits(0.25), bits(0.25)];
    let b = vec![bits(0.5), bits(0.5), bits(0.0)];
    assert_eq!(is_converged(&a, &b), (false, 2));
    assert_eq!(is_converged(&a, &a), (true, 0));
    assert_eq!(is_converged_verifier(&vec![Some(bits(0.5)), None, Some(bits(0.25))], &b), (false, 2));
    assert_eq!(is_converged(&a, &vec![bits(0.5)]), (false, 2));
}

#[test]
fn missing_scores_count_as_zero() {
    assert_eq!(is_converged(&vec![], &vec![bits(1.0)]), (false, 1));
    assert_eq!(is_converged(&vec![bits(1.0)], &vec![]), (false, 1));
    assert_eq!(is_converged(&vec![0], &vec![0, bits(0.005)]), (true, 0));
    assert_eq!(is_converged_verifier(&vec![], &vec![bits(1.0)]), (false, 1));
    assert_eq!(is_converged_verifier(&vec![None], &vec![bits(1.0)]), (false, 1));
    assert_eq!(is_converged_verifier(&vec![Some(bits(1.0)), None], &vec![bits(1.0)]), (true, 0));
}

#[test]
fn verifier_rejects_a_missing_score() {
    assert!(!convergence_check(vec![None], vec![Some(bits(1.0))], &vec![None], 1));
    assert!(convergence_check(vec![None], vec![Some(bits(1.0))], &vec![Some(bits(1.0))], 1));
    let (lt, seed) = two_cycle();
    let partial = vec![Some(0x3f2a_0000), None];
    assert!(!convergence_check(lt, seed, &partial, 2));
}
