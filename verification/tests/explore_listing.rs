use acs_explorer::cli::{Table, TableRecord, TableVersion};
use acs_explorer::explore::{
    acs_estimate_name, check_status, format_label, format_table_config, group_variables,
    process_vars_data, tables_from_variables, variables_address, ExploreError, Variable,
};

const LABELS: [(&str, &str); 21] = [
    ("001", "Estimate!!Total"),
    ("002", "Estimate!!Total!!With an Internet subscription"),
    ("003", "Estimate!!Total!!With an Internet subscription!!Dial-up alone"),
    ("004", "Estimate!!Total!!With an Internet subscription!!DSL"),
    ("005", "Estimate!!Total!!With an Internet subscription!!DSL!!With mobile broadband"),
    ("006", "Estimate!!Total!!With an Internet subscription!!DSL!!Without mobile broadband"),
    ("007", "Estimate!!Total!!With an Internet subscription!!Cable modem"),
    ("008", "Estimate!!Total!!With an Internet subscription!!Cable modem!!With mobile broadband"),
    ("009", "Estimate!!Total!!With an Internet subscription!!Cable modem!!Without mobile broadband"),
    ("010", "Estimate!!Total!!With an Internet subscription!!Fiber-optic"),
    ("011", "Estimate!!Total!!With an Internet subscription!!Fiber-optic!!With mobile broadband"),
    ("012", "Estimate!!Total!!With an Internet subscription!!Fiber-optic!!Without mobile broadband"),
    ("013", "Estimate!!Total!!With an Internet subscription!!Satellite Internet service"),
    ("014", "Estimate!!Total!!With an Internet subscription!!Satellite Internet service!!With mobile broadband"),
    ("015", "Estimate!!Total!!With an Internet subscription!!Satellite Internet service!!Without mobile broadband"),
    ("016", "Estimate!!Total!!With an Internet subscription!!Two or more fixed broadband types, or other"),
    ("017", "Estimate!!Total!!With an Internet subscription!!Two or more fixed broadband types, or other!!With mobile broadband"),
    ("018", "Estimate!!Total!!With an Internet subscription!!Two or more fixed broadband types, or other!!Without mobile broadband"),
    ("019", "Estimate!!Total!!With an Internet subscription!!Mobile broadband alone or with dialup"),
    ("020", "Estimate!!Total!!Internet access without a subscription"),
    ("021", "Estimate!!Total!!No Internet access"),
];

const PRETTY: &str = "001|Total
002|With an Internet subscription
003|    Dial-up alone
004|    DSL
005|        With mobile broadband
006|        Without mobile broadband
007|    Cable modem
008|        With mobile broadband
009|        Without mobile broadband
010|    Fiber-optic
011|        With mobile broadband
012|        Without mobile broadband
013|    Satellite Internet service
014|        With mobile broadband
015|        Without mobile broadband
016|    Two or more fixed broadband types, or other
017|        With mobile broadband
018|        Without mobile broadband
019|    Mobile broadband alone or with dialup
020|Internet access without a subscription
021|No Internet access
";

const CONFIG: &str = r#"001: "Total"
002: "WithAnInternetSubscription"
003: "WithAnInternetSubscription_Dial-upAlone"
004: "WithAnInternetSubscription_DSL"
005: "WithAnInternetSubscription_DSL_WithMobileBroadband"
006: "WithAnInternetSubscription_DSL_WithoutMobileBroadband"
007: "WithAnInternetSubscription_CableModem"
008: "WithAnInternetSubscription_CableModem_WithMobileBroadband"
009: "WithAnInternetSubscription_CableModem_WithoutMobileBroadband"
010: "WithAnInternetSubscription_Fiber-optic"
011: "WithAnInternetSubscription_Fiber-optic_WithMobileBroadband"
012: "WithAnInternetSubscription_Fiber-optic_WithoutMobileBroadband"
013: "WithAnInternetSubscription_SatelliteInternetService"
014: "WithAnInternetSubscription_SatelliteInternetService_WithMobileBroadband"
015: "WithAnInternetSubscription_SatelliteInternetService_WithoutMobileBroadband"
016: "WithAnInternetSubscription_TwoOrMoreFixedBroadbandTypes,OrOther"
017: "WithAnInternetSubscription_TwoOrMoreFixedBroadbandTypes,OrOther_WithMobileBroadband"
018: "WithAnInternetSubscription_TwoOrMoreFixedBroadbandTypes,OrOther_WithoutMobileBroadband"
019: "WithAnInternetSubscription_MobileBroadbandAloneOrWithDialup"
020: "InternetAccessWithoutASubscription"
021: "NoInternetAccess"
"#;

/// A variables document holding B28002 (in reverse order, with the `E`
/// and `M` variables of each column), another table and some variables
/// that belong to no table.
fn document() -> String {
    let mut entries = vec![
        r#""for": {"label": "Census API FIPS 'for' clause"}"#.to_string(),
        r#""B01003_001E": {"label": "Estimate!!Total"}"#.to_string(),
    ];
    for (cid, label) in LABELS.iter().rev() {
        entries.push(format!(r#""B28002_{}E": {{"label": "{}"}}"#, cid, label));
        entries.push(format!(r#""B28002_{}M": {{"label": "Margin of Error!!{}"}}"#, cid, label));
    }
    entries.push(r#""NAME": {"label": "Geographic Area Name"}"#.to_string());
    format!(r#"{{"variables": {{{}}}}}"#, entries.join(", "))
}

fn b28002() -> Table {
    let tables = tables_from_variables("2015", "acs1", &document()).unwrap();
    assert_eq!(tables.len(), 2);
    tables.into_iter().find(|t| t.table_id == "B28002").unwrap()
}

#[test]
fn readme_pretty_table() {
    let t = b28002();
    let estimates = Table {
        record: t.record.iter().filter(|r| !r.label.starts_with("Margin")).cloned().collect(),
        ..t.clone()
    };
    assert_eq!(format_label(&estimates, None), PRETTY);
}

#[test]
fn readme_config_file() {
    let t = b28002();
    let estimates = Table {
        record: t.record.iter().filter(|r| !r.label.starts_with("Margin")).cloned().collect(),
        ..t.clone()
    };
    assert_eq!(format_table_config(&estimates, None), CONFIG);
}

#[test]
fn tables_hold_short_sorted_ids() {
    let t = b28002();
    assert_eq!(t.year, "2015");
    assert_eq!(t.acs_estimate, "acs1");
    assert_eq!(t.record.len(), 42);
    for (i, r) in t.record.iter().enumerate() {
        assert_eq!(r.column_id, LABELS[i / 2].0);
        assert!(r.column_id.len() <= 3);
    }
    // The document lists the estimate of each column before its margin of
    // error, and sorting keeps that order among equal ids.
    assert_eq!(t.record[0].label, "Estimate!!Total");
    assert_eq!(t.record[1].label, "Margin of Error!!Estimate!!Total");
}

#[test]
fn variables_are_grouped_by_table() {
    let vars = vec![
        Variable { name: "B01_1E".to_string(), label: "x".to_string() },
        Variable { name: "for".to_string(), label: "f".to_string() },
        Variable { name: "B02_1E".to_string(), label: "y".to_string() },
        Variable { name: "B01_2E".to_string(), label: "z".to_string() },
        Variable { name: "A_B_C".to_string(), label: "w".to_string() },
    ];
    let groups = group_variables(&vars);
    assert_eq!(groups.len(), 2);
    let b01 = groups.iter().find(|g| g.table_id == "B01").unwrap();
    let cols: Vec<(&str, &str)> =
        b01.columns.iter().map(|c| (c.column.as_str(), c.label.as_str())).collect();
    assert_eq!(cols, vec![("1E", "x"), ("2E", "z")]);
    let b02 = groups.iter().find(|g| g.table_id == "B02").unwrap();
    assert_eq!(b02.columns.len(), 1);
}

#[test]
fn missing_label_reads_as_null() {
    let groups = process_vars_data(r#"{"variables": {"B01_1E": {"concept": "c"}}}"#).unwrap();
    assert_eq!(groups.len(), 1);
    assert_eq!(groups[0].columns[0].label, "null");
}

#[test]
fn text_that_is_not_json_is_refused() {
    assert!(matches!(process_vars_data("{not json"), Err(ExploreError::Parse)));
    assert!(matches!(tables_from_variables("2015", "acs1", "[1,"), Err(ExploreError::Parse)));
}

#[test]
fn document_without_variables_has_no_tables() {
    assert_eq!(tables_from_variables("2015", "acs1", "{}").unwrap().len(), 0);
}

#[test]
fn short_column_ids_in_a_table_of_several_columns_are_refused() {
    let text = r#"{"variables": {"B01_1E": {"label": "a"}, "B01_2E": {"label": "b"}}}"#;
    assert!(matches!(tables_from_variables("2015", "acs1", text), Err(ExploreError::ColumnId)));
    let single = r#"{"variables": {"B01_1E": {"label": "a"}}}"#;
    let tables = tables_from_variables("2015", "acs1", single).unwrap();
    assert_eq!(tables[0].record[0].column_id, "1E");
}

#[test]
fn status_is_checked() {
    assert_eq!(check_status(200), Ok(()));
    assert_eq!(check_status(299), Ok(()));
    assert_eq!(check_status(500), Err(ExploreError::ServerError));
    assert_eq!(check_status(503), Err(ExploreError::ServerError));
    assert_eq!(check_status(404), Err(ExploreError::Status(404)));
    assert_eq!(check_status(301), Err(ExploreError::Status(301)));
}

#[test]
fn address_of_the_variables_document() {
    assert_eq!(acs_estimate_name("5"), "acs5");
    assert_eq!(
        variables_address("2015", "1"),
        "https://api.census.gov/data/2015/acs/acs1/variables.json"
    );
}

fn loaded() -> TableVersion {
    TableVersion {
        table_id: "B28002".to_string(),
        min_year: 2013,
        max_year: -5,
        record: vec![TableRecord {
            column_id: "001".to_string(),
            label: "Estimate!!Total:".to_string(),
        }],
    }
}

#[test]
fn loaded_table_has_a_header() {
    let t = Table {
        table_id: "B28002".to_string(),
        year: "2015".to_string(),
        acs_estimate: "acs1".to_string(),
        record: vec![],
    };
    let rule = "-".repeat(117);
    assert_eq!(
        format_label(&t, Some(&loaded())),
        format!("Table Id: B28002\nMin Year: 2013\nMax Year: -5\n{}\n001|Total\n", rule)
    );
    assert_eq!(
        format_table_config(&t, Some(&loaded())),
        format!("Table Id: B28002\nMin Year: 2013\nMax Year: -5\n{}\n001: \"Total:\"\n", rule)
    );
}

#[test]
fn config_names_are_quoted_with_escapes() {
    let t = Table {
        table_id: "B1".to_string(),
        year: "2015".to_string(),
        acs_estimate: "acs1".to_string(),
        record: vec![
            TableRecord { column_id: "002".to_string(), label: "E!!Total!!say \"hi\" it's".to_string() },
            TableRecord { column_id: "003".to_string(), label: "no levels".to_string() },
        ],
    };
    assert_eq!(
        format_table_config(&t, None),
        "002: \"Say\\\"hi\\\"Its\"\n003: \"NoLevels\"\n"
    );
}

#[test]
fn labels_keep_last_level_without_colons() {
    let t = Table {
        table_id: "B1".to_string(),
        year: "2015".to_string(),
        acs_estimate: "acs1".to_string(),
        record: vec![
            TableRecord { column_id: "001".to_string(), label: "Total::".to_string() },
            TableRecord {
                column_id: "002".to_string(),
                label: "Estimate!!Total:!!A:!!B:!!C".to_string(),
            },
        ],
    };
    assert_eq!(format_label(&t, None), "001|Total\n002|        C\n");
}
