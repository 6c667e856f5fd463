//! Byte-level parsing of path and walk records.

use panacus::gfa::{parse_path, parse_path_line, parse_walk};
use panacus::util::CoreError;

fn node_table() -> Vec<(Vec<u8>, u32)> {
    vec![
        (b"n1".to_vec(), 0),
        (b"n2".to_vec(), 1),
        (b"n3".to_vec(), 2),
    ]
}

#[test]
fn parses_a_path_string() {
    let table = node_table();
    let out = parse_path(b"n1+,n2-,n3+", &table).unwrap();
    assert_eq!(out, vec![(0, false), (1, true), (2, false)]);
}

#[test]
fn unknown_nodes_are_rejected() {
    let table = node_table();
    assert_eq!(
        parse_path(b"n1+,nx+", &table).unwrap_err(),
        CoreError::UnknownPath
    );
    assert_eq!(
        parse_path(b"n1+,,n2-", &table).unwrap_err(),
        CoreError::MalformedInput
    );
}

#[test]
fn parses_a_path_line() {
    let table = node_table();
    let (seg, path) = parse_path_line(b"P\tchr1\tn2+,n1-\t*\n", &table).unwrap();
    assert_eq!(seg.sample, b"chr1".to_vec());
    assert_eq!(seg.start, None);
    assert_eq!(path, vec![(1, false), (0, true)]);
}

#[test]
fn path_line_without_tabs_is_rejected() {
    let table = node_table();
    assert_eq!(
        parse_path_line(b"Pchr1n2+", &table).unwrap_err(),
        CoreError::MalformedInput
    );
}

#[test]
fn parses_a_walk_string() {
    let walk = parse_walk(b">a<b>c");
    assert_eq!(
        walk,
        vec![
            (b"a".to_vec(), false),
            (b"b".to_vec(), true),
            (b"c".to_vec(), false),
        ]
    );
    assert_eq!(parse_walk(b""), Vec::<(Vec<u8>, bool)>::new());
    assert_eq!(parse_walk(b"<x"), vec![(b"x".to_vec(), true)]);
}
