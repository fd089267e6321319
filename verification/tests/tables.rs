use acs_explorer::cli::{parse_column_id, parse_table_id, Table, TableRecord};
use acs_explorer::sort::sort_records;
use std::cmp::Ordering;

fn table(id: &str) -> Table {
    Table {
        table_id: id.to_string(),
        year: "2015".to_string(),
        acs_estimate: "acs1".to_string(),
        record: Vec::new(),
    }
}

fn record(cid: &str, label: &str) -> TableRecord {
    TableRecord { column_id: cid.to_string(), label: label.to_string() }
}

#[test]
fn table_id_parts() {
    assert_eq!(
        parse_table_id("B01001A"),
        ("B".to_string(), "01001".to_string(), "A".to_string())
    );
    assert_eq!(parse_table_id("B28002"), ("B".to_string(), "28002".to_string(), "".to_string()));
    assert_eq!(
        parse_table_id("C24010AB"),
        ("C".to_string(), "24010".to_string(), "".to_string())
    );
}

#[test]
fn column_id_parts() {
    assert_eq!(parse_column_id("001E"), ("001".to_string(), "E".to_string()));
    assert_eq!(parse_column_id("001"), ("001".to_string(), "".to_string()));
}

#[test]
fn table_order_by_number_then_prefix_then_suffix() {
    assert_eq!(table("B01001").cmp(&table("B01002")), Ordering::Less);
    assert_eq!(table("C01001").cmp(&table("B01002")), Ordering::Less);
    assert_eq!(table("C01001").cmp(&table("B01001")), Ordering::Greater);
    assert_eq!(table("B01001").cmp(&table("B01001A")), Ordering::Less);
    assert_eq!(table("B01001A").cmp(&table("B01001")), Ordering::Greater);
    assert_eq!(table("B01001A").cmp(&table("B01001B")), Ordering::Equal);
    assert_eq!(table("B01001").cmp(&table("B01001")), Ordering::Equal);
    assert_eq!(table("B01001").partial_cmp(&table("B01002")), Some(Ordering::Less));
}

#[test]
fn column_order_is_byte_order_of_ids() {
    assert_eq!(record("001", "a").cmp(&record("002", "b")), Ordering::Less);
    assert_eq!(record("010", "a").cmp(&record("002", "b")), Ordering::Greater);
    assert_eq!(record("001", "a").cmp(&record("001", "b")), Ordering::Equal);
    assert_eq!(record("001E", "a").cmp(&record("001", "b")), Ordering::Greater);
    assert_eq!(record("001", "a").cmp(&record("001M", "b")), Ordering::Less);
    assert_eq!(record("001E", "a").partial_cmp(&record("001M", "b")), Some(Ordering::Less));
    for (a, b) in [("001E", "001M"), ("100", "099"), ("abc", "abd"), ("005", "005")] {
        assert_eq!(record(a, "").cmp(&record(b, "")), a.cmp(b));
    }
}

#[test]
fn sort_is_stable_by_column_id() {
    let v = vec![
        record("003", "c"),
        record("001", "a1"),
        record("002", "b"),
        record("001", "a2"),
        record("003", "c2"),
    ];
    let sorted = sort_records(v);
    let got: Vec<(String, String)> =
        sorted.into_iter().map(|r| (r.column_id, r.label)).collect();
    let want: Vec<(String, String)> = vec![
        ("001", "a1"),
        ("001", "a2"),
        ("002", "b"),
        ("003", "c"),
        ("003", "c2"),
    ]
    .into_iter()
    .map(|(a, b)| (a.to_string(), b.to_string()))
    .collect();
    assert_eq!(got, want);
}

#[test]
fn sort_of_one_short_column_compares_nothing() {
    let sorted = sort_records(vec![record("1", "only")]);
    assert_eq!(sorted.len(), 1);
    assert_eq!(sorted[0].column_id, "1");
}
