use rendering_tree::javascript::binding::NodeTable;
use rendering_tree::javascript::{format_error, to_decimal};

#[test]
fn to_decimal_writes_numbers() {
    assert_eq!(to_decimal(0), "0");
    assert_eq!(to_decimal(7), "7");
    assert_eq!(to_decimal(10), "10");
    assert_eq!(to_decimal(1234567890), "1234567890");
    assert_eq!(to_decimal(usize::MAX), usize::MAX.to_string());
}

#[test]
fn format_error_gives_label_line_and_message() {
    assert_eq!(
        format_error("(inline)", 3, "ReferenceError: test is not defined"),
        "(inline):3: ReferenceError: test is not defined"
    );
    assert_eq!(format_error("", 0, ""), ":0: ");
    assert_eq!(format_error("a.js", 120, "x"), "a.js:120: x");
}

#[test]
fn a_table_gives_out_handles_in_order() {
    let mut table = NodeTable::new();
    assert_eq!(table.len(), 0);
    assert_eq!(table.resolve(0), None);
    assert_eq!(table.bind(vec![1, 2]), 0);
    assert_eq!(table.bind(vec![]), 1);
    assert_eq!(table.bind(vec![1, 2]), 2);
    assert_eq!(table.len(), 3);
    assert_eq!(table.resolve(0), Some(&vec![1, 2]));
    assert_eq!(table.resolve(1), Some(&vec![]));
    assert_eq!(table.resolve(2), Some(&vec![1, 2]));
    assert_eq!(table.resolve(3), None);
}

#[test]
fn release_below_releases_what_is_strictly_below() {
    let mut table = NodeTable::new();
    table.bind(vec![1]);
    table.bind(vec![1, 0]);
    table.bind(vec![1, 0, 4]);
    table.bind(vec![2, 0]);
    table.bind(vec![]);
    table.bind(vec![10]);
    table.release_below(&vec![1]);
    assert_eq!(table.resolve(0), Some(&vec![1]));
    assert_eq!(table.resolve(1), None);
    assert_eq!(table.resolve(2), None);
    assert_eq!(table.resolve(3), Some(&vec![2, 0]));
    assert_eq!(table.resolve(4), Some(&vec![]));
    assert_eq!(table.resolve(5), Some(&vec![10]));
    assert_eq!(table.len(), 6);
    table.release_below(&vec![]);
    assert_eq!(table.resolve(0), None);
    assert_eq!(table.resolve(3), None);
    assert_eq!(table.resolve(4), Some(&vec![]));
    assert_eq!(table.resolve(5), None);
}
