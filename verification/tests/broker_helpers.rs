//! Streaming-pass helpers: count-type grouping, path skipping and the
//! coordinate lookups.

use panacus::graph_broker::abacus::GraphMask;
use panacus::graph_broker::graph::PathSegment;
use panacus::graph_broker::{get_count_indices, get_exclude_maps, get_include_coords, skip_path};
use panacus::util::{CountType, ItemTable};

#[test]
fn count_indices_share_the_node_bp_table() {
    let idx = get_count_indices(&vec![CountType::Node, CountType::Bp, CountType::Edge]);
    assert_eq!(idx.len(), 2);
    assert_eq!(idx[0].0, CountType::Bp);
    assert_eq!(idx[0].1, vec![0, 1]);
    assert_eq!(idx[1].0, CountType::Edge);
    assert_eq!(idx[1].1, vec![2]);
}

#[test]
fn skipping_a_path_carries_the_prefix_sum() {
    let mut tables = vec![
        ItemTable {
            id_prefsum: vec![3, 2, 0],
            items: vec![7, 7, 7],
        },
        ItemTable {
            id_prefsum: vec![1, 4, 0],
            items: vec![9],
        },
    ];
    let mut num_path = 0usize;
    let mut buf = b"leftover".to_vec();
    skip_path(&mut tables, &mut num_path, &mut buf);
    assert_eq!(num_path, 1);
    assert!(buf.is_empty());
    assert_eq!(tables[0].id_prefsum, vec![3, 5, 0]);
    assert_eq!(tables[1].id_prefsum, vec![1, 5, 0]);
}

#[test]
fn coordinate_lookups_follow_the_mask() {
    let seg = PathSegment::from_sample(b"p1".to_vec());
    let coords_map = vec![(b"p1".to_vec(), vec![(5usize, 10usize)])];
    let complete = vec![(0usize, usize::MAX)];

    let open_mask = GraphMask::new(vec![], None, None, None).unwrap();
    assert_eq!(
        get_include_coords(&open_mask, &complete, &coords_map, &seg),
        complete
    );
    assert_eq!(get_exclude_maps(&open_mask, &coords_map, &seg), vec![]);

    let restricted = GraphMask::new(
        vec![],
        Some(vec![PathSegment::from_sample(b"p1".to_vec())]),
        Some(vec![PathSegment::from_sample(b"p1".to_vec())]),
        None,
    )
    .unwrap();
    assert_eq!(
        get_include_coords(&restricted, &complete, &coords_map, &seg),
        vec![(5, 10)]
    );
    assert_eq!(get_exclude_maps(&restricted, &coords_map, &seg), vec![(5, 10)]);
    let other = PathSegment::from_sample(b"p9".to_vec());
    assert_eq!(get_exclude_maps(&restricted, &coords_map, &other), vec![]);
}

#[test]
fn path_identifiers_join_name_parts() {
    let seg = PathSegment::new(
        b"sample".to_vec(),
        b"1".to_vec(),
        b"chr1".to_vec(),
        Some(5),
        Some(9),
    );
    assert_eq!(seg.id(), b"sample#1#chr1".to_vec());
    assert_eq!(PathSegment::from_sample(b"x".to_vec()).id(), b"x".to_vec());
}
