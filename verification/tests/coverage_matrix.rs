//! Construction and subset queries of the sparse coverage matrix.

use panacus::graph_broker::abacus::AbacusByTotal;
use panacus::graph_broker::coverage_matrix::CoverageMatrix;
use panacus::graph_broker::hist::Hist;
use panacus::util::{ActiveTable, CoreError, CountType, ItemTable};

fn small_table() -> ItemTable {
    // three paths: items [1,2,3], [2,2], [2,3]
    ItemTable {
        id_prefsum: vec![0, 3, 5, 7],
        items: vec![1, 2, 3, 2, 2, 2, 3],
    }
}

fn small_order() -> Vec<(u32, String)> {
    vec![
        (0, "g1".to_string()),
        (1, "g1".to_string()),
        (2, "g2".to_string()),
    ]
}

#[test]
fn builds_csr_rows_and_values() {
    let table = small_table();
    let m = CoverageMatrix::from_gfa(
        &table,
        &None,
        &small_order(),
        vec![0, 0, 0, 0],
        3,
        CountType::Node,
        true,
    )
    .unwrap();
    assert_eq!(m.groups, vec!["g1".to_string(), "g2".to_string()]);
    assert_eq!(m.r, vec![0, 0, 1, 3, 5]);
    assert_eq!(m.c, vec![0, 0, 1, 0, 1]);
    assert_eq!(m.v, Some(vec![1, 3, 1, 1, 1]));
    assert_eq!(m.count, CountType::Node);
}

#[test]
fn csr_rows_strictly_increase_and_values_positive() {
    let table = small_table();
    let m = CoverageMatrix::from_gfa(
        &table,
        &None,
        &small_order(),
        vec![0, 0, 0, 0],
        3,
        CountType::Node,
        true,
    )
    .unwrap();
    for i in 0..m.r.len() - 1 {
        let row = &m.c[m.r[i]..m.r[i + 1]];
        for w in row.windows(2) {
            assert!(w[0] < w[1], "row {} not strictly increasing", i);
        }
    }
    for v in m.v.as_ref().unwrap() {
        assert!(*v >= 1);
    }
}

#[test]
fn excluded_items_have_empty_rows() {
    let table = small_table();
    let exclude = ActiveTable {
        items: vec![false, false, false, true],
    };
    let m = CoverageMatrix::from_gfa(
        &table,
        &Some(exclude),
        &small_order(),
        vec![0, 0, 0, 0],
        3,
        CountType::Node,
        false,
    )
    .unwrap();
    assert_eq!(m.r, vec![0, 0, 1, 3, 3]);
    assert_eq!(m.c, vec![0, 0, 1]);
    assert_eq!(m.v, None);
}

#[test]
fn malformed_inputs_are_rejected() {
    let table = small_table();
    // uncovered array of the wrong length
    let r = CoverageMatrix::from_gfa(
        &table,
        &None,
        &small_order(),
        vec![0, 0, 0],
        3,
        CountType::Node,
        false,
    );
    assert_eq!(r.unwrap_err(), CoreError::MalformedInput);
    // a path id beyond the table
    let r = CoverageMatrix::from_gfa(
        &table,
        &None,
        &vec![(9, "g1".to_string())],
        vec![0, 0, 0, 0],
        3,
        CountType::Node,
        false,
    );
    assert_eq!(r.unwrap_err(), CoreError::MalformedInput);
}

#[test]
fn to_abacus_restricts_groups_and_reports_nonzero_nodes() {
    let table = small_table();
    let m = CoverageMatrix::from_gfa(
        &table,
        &None,
        &small_order(),
        vec![0, 0, 0, 0],
        3,
        CountType::Node,
        true,
    )
    .unwrap();
    let (ab, nonzero) = m.to_abacus_all_nodes(&vec![1]);
    assert_eq!(ab.countable, vec![0, 0, 1, 1]);
    assert_eq!(nonzero, vec![2, 3]);
    assert_eq!(ab.groups, vec!["g2".to_string()]);

    let nodes = vec![2usize, 3usize];
    let (ab2, nonzero2) = m.to_abacus(&nodes, &vec![0, 1]);
    assert_eq!(ab2.countable, vec![2, 2]);
    assert_eq!(nonzero2, vec![2, 3]);
}

#[test]
fn full_subset_reproduces_total_abacus() {
    // the matrix restricted to every group agrees with the directly built
    // total coverage table, and so do the histograms derived from both
    let table = small_table();
    let m = CoverageMatrix::from_gfa(
        &table,
        &None,
        &small_order(),
        vec![0, 0, 0, 0],
        3,
        CountType::Node,
        true,
    )
    .unwrap();
    let (from_matrix, _) = m.to_abacus_all_nodes(&vec![0, 1]);
    let direct = AbacusByTotal::item_table_to_abacus(
        &table,
        &None,
        &small_order(),
        None,
        3,
        CountType::Node,
    )
    .unwrap();
    assert_eq!(from_matrix.countable, direct.countable);
    assert_eq!(from_matrix.countable, vec![0, 1, 2, 2]);

    let h1 = Hist::from_abacus(&from_matrix, None);
    let h2 = Hist::from_abacus(&direct, None);
    assert_eq!(h1.coverage, h2.coverage);
    assert_eq!(h1.coverage, vec![1, 1, 2]);
}

#[test]
fn nodes_of_paths_lists_touched_items() {
    let table = small_table();
    let m = CoverageMatrix::from_gfa(
        &table,
        &None,
        &small_order(),
        vec![0, 0, 0, 0],
        3,
        CountType::Node,
        false,
    )
    .unwrap();
    assert_eq!(m.get_nodes_of_paths(&vec![0]), vec![1, 2, 3]);
    assert_eq!(m.get_nodes_of_paths(&vec![1]), vec![2, 3]);
    assert_eq!(m.get_nodes_of_paths(&vec![]), Vec::<usize>::new());
}

#[test]
fn node_coverages_skip_the_dummy_item() {
    let table = small_table();
    let m = CoverageMatrix::from_gfa(
        &table,
        &None,
        &small_order(),
        vec![0, 0, 0, 0],
        3,
        CountType::Node,
        false,
    )
    .unwrap();
    let cov = m.get_node_coverages();
    assert_eq!(cov.len(), 3);
    assert_eq!(cov[0].0 .0, 1);
    assert_eq!(cov[0].1, 1);
    assert_eq!(cov[1].1, 2);
    assert_eq!(cov[2].1, 2);
}

#[test]
fn group_blocks_get_one_id_each() {
    // two labels, three blocks would be refused by the mask; the matrix
    // numbering itself assigns ids per adjacent block
    let table = ItemTable {
        id_prefsum: vec![0, 1, 2],
        items: vec![1, 1],
    };
    let m = CoverageMatrix::from_gfa(
        &table,
        &None,
        &vec![(0, "a".to_string()), (1, "b".to_string())],
        vec![0, 0],
        1,
        CountType::Edge,
        false,
    )
    .unwrap();
    assert_eq!(m.groups, vec!["a".to_string(), "b".to_string()]);
    assert_eq!(m.r, vec![0, 0, 2]);
    assert_eq!(m.c, vec![0, 1]);
}
