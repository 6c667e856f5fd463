//! The path-to-group mask, path segments, and small engine helpers.

use panacus::analyses::regional_helpers::{get_ref_length, split_ref_paths};
use panacus::analyses::InputRequirement;
use panacus::analysis_parameter::{AnalysisParameter, ClusterMethod, Grouping};
use std::cmp::Ordering;
use panacus::graph_broker::abacus::GraphMask;
use panacus::graph_broker::graph::{ItemId, Orientation, PathSegment};
use panacus::util::{intersects, is_contained, CoreError, CountType};

fn seg(name: &str) -> PathSegment {
    PathSegment::from_sample(name.as_bytes().to_vec())
}

#[test]
fn mask_accepts_contiguous_groups() {
    let mask = GraphMask::new(
        vec![
            (seg("p1"), "a".to_string()),
            (seg("p2"), "a".to_string()),
            (seg("p3"), "b".to_string()),
        ],
        None,
        None,
        None,
    )
    .unwrap();
    assert_eq!(mask.count_groups(), 2);
}

#[test]
fn mask_rejects_split_groups() {
    let r = GraphMask::new(
        vec![
            (seg("p1"), "a".to_string()),
            (seg("p2"), "b".to_string()),
            (seg("p3"), "a".to_string()),
        ],
        None,
        None,
        None,
    );
    assert_eq!(r.unwrap_err(), CoreError::UngroupedOrder);
}

#[test]
fn path_order_resolves_known_paths() {
    let mask = GraphMask::new(
        vec![(seg("p2"), "a".to_string()), (seg("p1"), "a".to_string())],
        None,
        None,
        None,
    )
    .unwrap();
    let known = vec![seg("p1"), seg("p2")];
    let order = mask.get_path_order(&known).unwrap();
    assert_eq!(order[0].0, 1);
    assert_eq!(order[1].0, 0);
    assert_eq!(order[0].1, "a".to_string());

    let unknown = vec![seg("p1")];
    assert_eq!(mask.get_path_order(&unknown).unwrap_err(), CoreError::UnknownPath);
}

#[test]
fn path_segments_compare_and_contain() {
    let mut a = seg("chm13");
    a.start = Some(10);
    a.end = Some(20);
    let whole = seg("chm13");
    assert!(a.is_part_of(&whole));
    let mut window = seg("chm13");
    window.start = Some(0);
    window.end = Some(15);
    assert!(!a.is_part_of(&window));
    assert_eq!(a.coords(), Some((10, 20)));
    let cleared = a.clear_coords();
    assert_eq!(cleared.coords(), None);
    assert!(cleared == whole);
}

#[test]
fn interval_helpers_follow_half_open_semantics() {
    let v = [(0usize, 10usize), (20, 30)];
    assert!(intersects(&v, &(5, 25)));
    assert!(!intersects(&v, &(10, 20)));
    assert!(is_contained(&v, &(21, 30)));
    assert!(!is_contained(&v, &(5, 25)));
}

#[test]
fn count_requirements_follow_the_count_type() {
    assert_eq!(
        InputRequirement::from_count(CountType::Node),
        vec![InputRequirement::Node]
    );
    assert_eq!(
        InputRequirement::from_count(CountType::All),
        vec![
            InputRequirement::Bp,
            InputRequirement::Node,
            InputRequirement::Edge,
        ]
    );
}

#[test]
fn ref_length_sums_node_lengths() {
    let nodes = vec![
        (ItemId(1), Orientation::Forward),
        (ItemId(2), Orientation::Backward),
    ];
    let lens = vec![0u32, 7, 9];
    assert_eq!(get_ref_length(&nodes, &lens), 16);
}

#[test]
fn ref_paths_group_by_coordinate_free_name() {
    let mut a1 = seg("chrA");
    a1.start = Some(0);
    a1.end = Some(10);
    let mut a2 = seg("chrA");
    a2.start = Some(10);
    a2.end = Some(20);
    let b = seg("chrB");
    let grouped = split_ref_paths(vec![
        (a1, vec![(ItemId(1), Orientation::Forward)]),
        (b, vec![(ItemId(2), Orientation::Forward)]),
        (a2, vec![(ItemId(3), Orientation::Forward)]),
    ]);
    assert_eq!(grouped.len(), 2);
    let chra = grouped.iter().find(|g| g.0.sample == b"chrA".to_vec()).unwrap();
    assert_eq!(chra.1.len(), 2);
    let chrb = grouped.iter().find(|g| g.0.sample == b"chrB".to_vec()).unwrap();
    assert_eq!(chrb.1.len(), 1);
}

#[test]
fn hist_requests_order_by_graph_first() {
    let h = |graph: &str, count: CountType, display: bool| AnalysisParameter::Hist {
        name: None,
        count_type: count,
        graph: graph.to_string(),
        display,
        subset: None,
        exclude: None,
        grouping: None,
    };
    let a = h("a.gfa", CountType::Node, true);
    let b = h("b.gfa", CountType::Node, true);
    assert_eq!(a.compare_hists(&b), Ordering::Less);
    assert_eq!(b.compare_hists(&a), Ordering::Greater);
    assert_eq!(a.compare_hists(&a), Ordering::Equal);
    let c = h("a.gfa", CountType::Bp, true);
    assert_eq!(a.compare_hists(&c), Ordering::Less);
    let d = h("a.gfa", CountType::Node, false);
    assert_eq!(d.compare_hists(&a), Ordering::Less);
}

#[test]
fn parameter_types_keep_their_defaults() {
    assert_eq!(ClusterMethod::default(), ClusterMethod::Centroid);
    assert!(Grouping::Sample < Grouping::Haplotype);
    assert_eq!(panacus::analysis_parameter::get_true(), true);
    assert_eq!(panacus::analysis_parameter::get_radius(), 20);
}
