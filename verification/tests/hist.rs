//! Histogram tallies, windowed tallies and the joint histogram.

use panacus::graph_broker::abacus::AbacusByTotal;
use panacus::graph_broker::hist::{Hist, Hist3D};
use panacus::util::{CoreError, CountType};

fn abacus(count: CountType, countable: Vec<u32>, groups: usize) -> AbacusByTotal {
    AbacusByTotal {
        count,
        countable,
        uncovered_bps: None,
        groups: (0..groups).map(|g| format!("s{}", g)).collect(),
    }
}

#[test]
fn node_hist_counts_items_per_coverage() {
    let ab = abacus(CountType::Node, vec![0, 1, 2, 2, 1], 2);
    let h = Hist::from_abacus(&ab, None);
    assert_eq!(h.count, CountType::Node);
    assert_eq!(h.coverage, vec![1, 2, 2]);
}

#[test]
fn out_of_range_coverage_is_ignored() {
    let ab = abacus(CountType::Edge, vec![0, 9, 1], 2);
    let h = Hist::from_abacus(&ab, None);
    assert_eq!(h.coverage, vec![1, 1, 0]);
}

#[test]
fn bp_hist_weighs_lengths_and_pools_uncovered() {
    let mut ab = abacus(CountType::Bp, vec![0, 1, 2, 2], 2);
    ab.uncovered_bps = Some(vec![0, 0, 5, 0]);
    let lens = vec![5u32, 10, 20, 30];
    let h = Hist::from_abacus(&ab, Some(&lens));
    // item 0 puts its 5 bps in bin 0; item 2 puts 15 covered bps in bin 2
    // and its 5 uncovered bps in bin 0
    assert_eq!(h.coverage, vec![10, 10, 45]);
}

#[test]
fn window_hist_restricts_to_chosen_items() {
    let ab = abacus(CountType::Node, vec![0, 1, 2, 2, 1], 2);
    let h = Hist::from_abacus_for_window(&ab, None, &vec![1, 3], None);
    assert_eq!(h.coverage, vec![0, 1, 1]);
    // repetitions count twice
    let h = Hist::from_abacus_for_window(&ab, None, &vec![4, 4], None);
    assert_eq!(h.coverage, vec![0, 2, 0]);
}

#[test]
fn window_bp_hist_uses_override_uncovered() {
    let mut ab = abacus(CountType::Bp, vec![0, 1, 2, 2], 2);
    ab.uncovered_bps = Some(vec![0, 0, 0, 0]);
    let lens = vec![5u32, 10, 20, 30];
    let h = Hist::from_abacus_for_window(&ab, Some(&lens), &vec![2, 3], Some(vec![0, 0, 5, 10]));
    // item 2: 15 covered in bin 2, 5 uncovered in bin 0
    // item 3: 20 covered in bin 2, 10 uncovered in bin 0
    assert_eq!(h.coverage, vec![15, 0, 35]);
}

#[test]
fn joint_hist_pairs_coverages() {
    let a = abacus(CountType::Node, vec![0, 1, 2, 1], 2);
    let b = abacus(CountType::Node, vec![0, 0, 1, 1], 1);
    let h = Hist3D::from_abaci(&a, &b, None).unwrap();
    assert_eq!(h.count, CountType::Node);
    assert_eq!(h.coverage.len(), 3);
    assert_eq!(h.coverage[0], vec![1, 0]);
    assert_eq!(h.coverage[1], vec![1, 1]);
    assert_eq!(h.coverage[2], vec![0, 1]);
}

#[test]
fn joint_hist_requires_matching_abaci() {
    let a = abacus(CountType::Node, vec![0, 1], 1);
    let b = abacus(CountType::Edge, vec![0, 1], 1);
    assert_eq!(
        Hist3D::from_abaci(&a, &b, None).unwrap_err(),
        CoreError::MismatchedAbaci
    );
    let c = abacus(CountType::Node, vec![0, 1, 1], 1);
    assert_eq!(
        Hist3D::from_abaci(&a, &c, None).unwrap_err(),
        CoreError::MismatchedAbaci
    );
}

#[test]
fn joint_bp_hist_weighs_lengths_and_pools_uncovered() {
    let mut a = abacus(CountType::Bp, vec![0, 1, 1], 1);
    let mut b = abacus(CountType::Bp, vec![0, 0, 1], 1);
    a.uncovered_bps = Some(vec![0, 3, 0]);
    b.uncovered_bps = Some(vec![0, 3, 0]);
    let lens = vec![4u32, 10, 20];
    let h = Hist3D::from_abaci(&a, &b, Some(&lens)).unwrap();
    // item 0 puts 4 bps in the origin; item 1 puts 7 covered bps in (1,0)
    // and 3 uncovered bps in the origin; item 2 puts 20 bps in (1,1)
    assert_eq!(h.coverage[0], vec![7, 0]);
    assert_eq!(h.coverage[1], vec![7, 20]);
    // missing lengths are a mismatch for base-pair tables
    assert_eq!(
        Hist3D::from_abaci(&a, &b, None).unwrap_err(),
        CoreError::MismatchedAbaci
    );
    // diverging uncovered maps are a mismatch
    b.uncovered_bps = Some(vec![0, 2, 0]);
    assert_eq!(
        Hist3D::from_abaci(&a, &b, Some(&lens)).unwrap_err(),
        CoreError::MismatchedAbaci
    );
}
