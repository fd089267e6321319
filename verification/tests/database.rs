use acs_explorer::cli::{Table, TableRecord, TableVersion};
use acs_explorer::load::{
    compare_tables, create_table_query, details_from_output, insert_queries, schema_query,
    select_query, update_query, CompareOutcome,
};

fn table(year: &str, labels: &[(&str, &str)]) -> Table {
    Table {
        table_id: "B28002".to_string(),
        year: year.to_string(),
        acs_estimate: "acs1".to_string(),
        record: labels
            .iter()
            .map(|(c, l)| TableRecord { column_id: c.to_string(), label: l.to_string() })
            .collect(),
    }
}

#[test]
fn statements() {
    assert_eq!(schema_query("acs_data"), "CREATE SCHEMA IF NOT EXISTS acs_data");
    assert_eq!(
        create_table_query("acs_data", "B28002"),
        "CREATE TABLE acs_data.\"B28002\" (column_id TEXT, column_name TEXT)"
    );
    assert_eq!(
        select_query("acs_data", "B28002"),
        "SELECT column_id, column_name FROM acs_data.\"B28002\""
    );
    let t = table("2015", &[("001", "Total"), ("002", "With")]);
    assert_eq!(
        update_query("s", &t, true),
        "UPDATE s.\"B28002\" set column_name=2015 where column_id='min_year'"
    );
    assert_eq!(
        update_query("s", &t, false),
        "UPDATE s.\"B28002\" set column_name=2015 where column_id='max_year'"
    );
}

#[test]
fn insert_statements_store_years_then_columns() {
    let t = table("2015", &[("001", "Total"), ("002", "With")]);
    let qs = insert_queries("acs_data", &t);
    assert_eq!(
        qs,
        vec![
            "INSERT INTO acs_data.\"B28002\" (column_id, column_name) VALUES('min_year', '2015')",
            "INSERT INTO acs_data.\"B28002\" (column_id, column_name) VALUES('max_year', '2015')",
            "INSERT INTO acs_data.\"B28002\" (column_id, column_name) VALUES('001', 'Total')",
            "INSERT INTO acs_data.\"B28002\" (column_id, column_name) VALUES('002', 'With')",
        ]
    );
}

const ANSWER: &str = " column_id | column_name \r\n-----------+-------------\r\n 002       | With a subscription \r\n min_year  | 20 14\r\n 001       | Total\r\n max_year  | 2016\r\n(4 rows)\r\n\r\n";

#[test]
fn stored_table_is_read_back_sorted() {
    let v = details_from_output(ANSWER, "B28002").unwrap();
    assert_eq!(v.table_id, "B28002");
    assert_eq!(v.min_year, 2014);
    assert_eq!(v.max_year, 2016);
    let cols: Vec<(&str, &str)> =
        v.record.iter().map(|r| (r.column_id.as_str(), r.label.as_str())).collect();
    assert_eq!(cols, vec![("001", "Total"), ("002", "With a subscription")]);
}

#[test]
fn unreadable_year_or_columns_are_refused() {
    let bad_year = "h\r\n-\r\n min_year | 20x4\r\n";
    assert!(details_from_output(bad_year, "B1").is_none());
    let short_ids = "h\r\n-\r\n 1 | a\r\n 2 | b\r\n";
    assert!(details_from_output(short_ids, "B1").is_none());
    let one_short_id = "h\r\n-\r\n 1 | a\r\n";
    assert_eq!(details_from_output(one_short_id, "B1").unwrap().record.len(), 1);
    let empty = details_from_output("", "B1").unwrap();
    assert_eq!((empty.min_year, empty.max_year, empty.record.len()), (0, 0, 0));
}

fn stored(min: i32, max: i32, labels: &[(&str, &str)]) -> TableVersion {
    TableVersion {
        table_id: "B28002".to_string(),
        min_year: min,
        max_year: max,
        record: table("0", labels).record,
    }
}

#[test]
fn comparing_stored_and_fetched_tables() {
    let cols = [("001", "Total"), ("002", "With")];
    let t = table("2015", &cols);
    assert!(matches!(
        compare_tables("s", &stored(2010, 2020, &cols[..1]), &t),
        Some(CompareOutcome::CountDiffers)
    ));
    assert!(matches!(
        compare_tables("s", &stored(2010, 2020, &[("001", "Total"), ("002", "Withé")]), &t),
        Some(CompareOutcome::LabelDiffers)
    ));
    assert!(matches!(
        compare_tables("s", &stored(2010, 2020, &[("001", "Total"), ("002", "Xxxx")]), &t),
        Some(CompareOutcome::Unchanged)
    ));
    match compare_tables("s", &stored(2016, 2020, &cols), &t) {
        Some(CompareOutcome::Update(q)) => assert_eq!(
            q,
            "UPDATE s.\"B28002\" set column_name=2015 where column_id='min_year'"
        ),
        _ => panic!("expected an update of the first year"),
    }
    match compare_tables("s", &stored(2010, 2014, &cols), &t) {
        Some(CompareOutcome::Update(q)) => assert_eq!(
            q,
            "UPDATE s.\"B28002\" set column_name=2015 where column_id='max_year'"
        ),
        _ => panic!("expected an update of the last year"),
    }
    assert!(compare_tables("s", &stored(2010, 2014, &cols), &table("20x5", &cols)).is_none());
}
