use puzzles::nonogram::{BlockSpec, Field, Nonogram, RowSpec, RowSpecConfig};

fn block_from_vec(array: Vec<u8>) -> Vec<Field> {
    array.into_iter().map(|v| Field::from_value(v).unwrap()).collect()
}

#[test]
fn test_invalid_block_count_too_big() {
    let spec = BlockSpec(vec![3, 4]);
    let row = block_from_vec(vec![0, 1, 1, 1, 0, 1, 1, 1, 1, 0, 1]);
    assert!(!spec.is_node_consistent(row.as_slice()));
}

#[test]
fn test_invalid_block_count_too_small() {
    let spec = BlockSpec(vec![3, 4, 1]);
    let row = block_from_vec(vec![0, 1, 1, 1, 0, 1, 1, 1, 1, 0]);
    assert!(!spec.is_node_consistent(row.as_slice()));
}

#[test]
fn test_invalid_block_size_1() {
    let spec = BlockSpec(vec![3, 4]);
    let row = block_from_vec(vec![0, 1, 1, 1, 1, 0, 1, 1, 1, 0]);
    assert!(!spec.is_node_consistent(row.as_slice()));
}

#[test]
fn test_invalid_block_size_2() {
    let spec = BlockSpec(vec![1, 1, 1, 1, 1]);
    let row = block_from_vec(vec![1, 0, 1, 0, 1, 0, 1, 0, 1, 1]);
    assert!(!spec.is_node_consistent(row.as_slice()));
}

#[test]
fn test_invalid_block_size_3() {
    let spec = BlockSpec(vec![1]);
    let row = block_from_vec(vec![0, 0, 0, 0, 0, 1, 1, 0]);
    assert!(!spec.is_node_consistent(row.as_slice()));
}

#[test]
fn test_valid_1() {
    let spec = BlockSpec(vec![2, 4]);
    let row = block_from_vec(vec![0, 0, 1, 1, 0, 1, 1, 1, 1, 0, 0]);
    assert!(spec.is_node_consistent(row.as_slice()));
}

#[test]
fn test_valid_2() {
    let spec = BlockSpec(vec![5]);
    let row = block_from_vec(vec![1, 1, 1, 1, 1]);
    assert!(spec.is_node_consistent(row.as_slice()));
}

#[test]
fn empty_row_matches_empty_spec() {
    assert!(BlockSpec(vec![]).is_node_consistent(&[]));
    assert!(BlockSpec(vec![]).is_node_consistent(block_from_vec(vec![0, 0]).as_slice()));
    assert!(!BlockSpec(vec![1]).is_node_consistent(&[]));
}

#[test]
fn field_values() {
    assert_eq!(Field::from_value(0), Some(Field::Empty));
    assert_eq!(Field::from_value(1), Some(Field::Filled));
    assert_eq!(Field::from_value(2), None);
    assert_eq!(Field::default(), Field::Filled);
}

#[test]
fn block_size_lookup() {
    let spec = BlockSpec(vec![2, 4]);
    assert!(spec.is_block_size_valid(4, 1));
    assert!(!spec.is_block_size_valid(2, 1));
    assert!(!spec.is_block_size_valid(2, 2));
}

#[test]
fn nonogram_rows_and_cols() {
    let image = vec![block_from_vec(vec![1, 0]), block_from_vec(vec![0, 1])];
    let config = RowSpecConfig::new(2, vec![b"1".to_vec()]);
    assert_eq!(config.block_count, 2);
    let n = Nonogram::new(image, RowSpec(vec![]), RowSpec(vec![]));
    let mut rows = n.rows();
    assert_eq!(rows.next(), Some(&[Field::Filled, Field::Empty][..]));
    assert_eq!(rows.next(), Some(&[Field::Empty, Field::Filled][..]));
    assert_eq!(rows.next(), None);
    let mut cols = n.cols();
    assert_eq!(cols.next(), Some(&[Field::Filled, Field::Empty][..]));
}

#[test]
fn block_spec_from_line() {
    assert_eq!(BlockSpec::from_line(b" 3  4\t+5").unwrap().0, vec![3, 4, 5]);
    assert_eq!(BlockSpec::from_line(b"").unwrap().0, Vec::<u8>::new());
    assert!(BlockSpec::from_line(b"3 256").is_none());
    assert!(BlockSpec::from_line(b"3 x").is_none());
    assert!(BlockSpec::from_line(b"-1").is_none());
}

#[test]
fn row_spec_from_config() {
    let spec = RowSpec::from_config(RowSpecConfig::new(2, vec![b"1 2".to_vec(), b"3".to_vec()]))
        .unwrap();
    assert_eq!(spec.0.len(), 2);
    assert_eq!(spec.0[0].0, vec![1, 2]);
    assert_eq!(spec.0[1].0, vec![3]);
    assert!(RowSpec::from_config(RowSpecConfig::new(1, vec![b"1".to_vec(), b"3".to_vec()]))
        .is_none());
    assert!(RowSpec::from_config(RowSpecConfig::new(3, vec![b"z".to_vec()])).is_none());
}

#[test]
fn config_line() {
    assert_eq!(Nonogram::parse_config_line(b"5 10"), Some((5, 10)));
    assert_eq!(Nonogram::parse_config_line(b"7 3 extra"), Some((7, 3)));
    assert_eq!(Nonogram::parse_config_line(b"5"), None);
    assert_eq!(Nonogram::parse_config_line(b"5 x"), None);
}

#[test]
fn nonogram_from_text() {
    let n = Nonogram::from_text("3 2\n1\r\n1 1\n").unwrap();
    let mut rows = n.rows();
    assert_eq!(rows.next(), Some(&[Field::Filled; 3][..]));
    assert_eq!(rows.next(), Some(&[Field::Filled; 3][..]));
    assert_eq!(rows.next(), None);
    assert!(Nonogram::from_text("1 1\n1\n1\n").is_none());
    assert!(Nonogram::from_text("").is_none());
    assert!(Nonogram::from_text("a b\n").is_none());
}
