//! JSON-lines serialization round trips and the SQL text passes.

use tds_extract::jsonl::{parse_event, serialize_event};
use tds_extract::output::{
    CivilTime, SqlEvent, civil_from_unix, extract_operations, extract_table_name,
    extract_tables_from_sql,
};

fn sample_time() -> CivilTime {
    CivilTime { year: 2024, month: 3, day: 9, hour: 14, minute: 5, second: 59, nanos: 123456789 }
}

fn assert_events_equal(a: &SqlEvent, b: &SqlEvent) {
    assert_eq!(a.timestamp, b.timestamp);
    assert_eq!(a.flow_id, b.flow_id);
    assert_eq!(a.sql_text, b.sql_text);
    assert_eq!(a.tables, b.tables);
    assert_eq!(a.operation, b.operation);
    assert_eq!(a.label, b.label);
    assert_eq!(a.raw_data, b.raw_data);
}

#[test]
fn jsonl_round_trip_full_event() {
    // parse(serialize(e)) == e on all fields
    let e = SqlEvent {
        timestamp: sample_time(),
        flow_id: "10.0.0.1:50000->10.0.0.2:1433".to_string(),
        sql_text: "SELECT * FROM T WHERE name = 'x'".to_string(),
        tables: vec!["T".to_string(), "dbo.U".to_string()],
        operation: "TDS".to_string(),
        label: Some("session-1".to_string()),
        raw_data: Some(vec![0, 1, 2, 255, 128]),
    };
    let line = serialize_event(&e);
    let back = parse_event(&line).expect("round trip");
    assert_events_equal(&back, &e);
}

#[test]
fn jsonl_round_trip_minimal_event() {
    // no label, no raw bytes, empty tables
    let e = SqlEvent {
        timestamp: CivilTime { year: 1970, month: 1, day: 1, hour: 0, minute: 0, second: 0, nanos: 0 },
        flow_id: "1.2.3.4:1->5.6.7.8:2".to_string(),
        sql_text: "abc".to_string(),
        tables: Vec::new(),
        operation: "TDS".to_string(),
        label: None,
        raw_data: None,
    };
    let line = serialize_event(&e);
    let back = parse_event(&line).expect("round trip");
    assert_events_equal(&back, &e);
}

#[test]
fn jsonl_round_trip_escaped_text() {
    // quotes, backslashes and control characters survive the line format
    let e = SqlEvent {
        timestamp: sample_time(),
        flow_id: "f".repeat(3),
        sql_text: "SELECT '\"quoted\"' + '\\path' + '\n\ttail'".to_string(),
        tables: vec!["a\"b".to_string()],
        operation: "TDS".to_string(),
        label: None,
        raw_data: Some(Vec::new()),
    };
    let line = serialize_event(&e);
    // the line holds no raw newline: it stays one line
    assert!(!line.contains('\n'));
    let back = parse_event(&line).expect("round trip");
    assert_events_equal(&back, &e);
}

#[test]
fn jsonl_serialized_shape_is_exact() {
    let e = SqlEvent {
        timestamp: CivilTime { year: 2024, month: 1, day: 2, hour: 3, minute: 4, second: 5, nanos: 6 },
        flow_id: "a".to_string(),
        sql_text: "b".to_string(),
        tables: vec!["t".to_string()],
        operation: "TDS".to_string(),
        label: None,
        raw_data: Some(vec![7, 200]),
    };
    let line = serialize_event(&e);
    assert_eq!(
        line,
        "{\"timestamp\":\"2024-01-02T03:04:05.000000006Z\",\"flow_id\":\"a\",\"sql_text\":\"b\",\"tables\":[\"t\"],\"operation\":\"TDS\",\"label\":null,\"raw_data\":[7,200]}"
    );
}

#[test]
fn jsonl_parse_rejects_malformed_lines() {
    assert!(parse_event("").is_none());
    assert!(parse_event("{}").is_none());
    assert!(parse_event("{\"timestamp\":\"2024-01-02T03:04:05.000000006Z\"").is_none());
    // trailing garbage is refused
    let e = SqlEvent {
        timestamp: sample_time(),
        flow_id: "a".to_string(),
        sql_text: "b".to_string(),
        tables: Vec::new(),
        operation: "TDS".to_string(),
        label: None,
        raw_data: None,
    };
    let mut line = serialize_event(&e);
    line.push('x');
    assert!(parse_event(&line).is_none());
}

#[test]
fn civil_from_unix_epoch_and_known_instant() {
    let t0 = civil_from_unix(0, 0);
    assert_eq!(
        t0,
        CivilTime { year: 1970, month: 1, day: 1, hour: 0, minute: 0, second: 0, nanos: 0 },
    );
    // 2021-01-01T00:00:00Z
    let t1 = civil_from_unix(1609459200, 250);
    assert_eq!(
        t1,
        CivilTime { year: 2021, month: 1, day: 1, hour: 0, minute: 0, second: 0, nanos: 250000 },
    );
}

#[test]
fn operations_found_case_insensitively() {
    // the text is uppercased before the keywords are looked up
    let ops = extract_operations("select a from t; update u set x=1");
    assert_eq!(ops, vec!["SELECT".to_string(), "UPDATE".to_string()]);
    let ops2 = extract_operations("EXECUTE sp_x");
    assert_eq!(ops2, vec!["EXEC".to_string(), "EXECUTE".to_string()]);
    assert!(extract_operations("nothing here").is_empty());
}

#[test]
fn table_name_takes_suffix_after_marker() {
    assert_eq!(extract_table_name("dbo.TB_Orders"), "Orders");
    assert_eq!(extract_table_name("DentWeb.dbo.TB_Log"), "Log");
    assert_eq!(extract_table_name("plain"), "plain");
    assert_eq!(extract_table_name("schema.table"), "table");
}

#[test]
fn tables_extracted_from_clauses() {
    let t = extract_tables_from_sql("SELECT * FROM Orders WHERE id=1");
    assert_eq!(t, vec!["Orders".to_string()]);
    let t2 = extract_tables_from_sql("select a from dbo.TB_A join B on A.x=B.x");
    assert_eq!(t2, vec!["dbo.TB_A".to_string(), "B".to_string()]);
    let t3 = extract_tables_from_sql("INSERT INTO Db.dbo.T VALUES (1)");
    assert_eq!(t3, vec!["Db.dbo.T".to_string()]);
    // duplicates are reported once
    let t4 = extract_tables_from_sql("SELECT * FROM T JOIN T ON 1=1");
    assert_eq!(t4, vec!["T".to_string()]);
    // a keyword inside a word is no keyword
    let t5 = extract_tables_from_sql("SELECT perform FROM x");
    assert_eq!(t5, vec!["x".to_string()]);
    assert!(extract_tables_from_sql("no clauses at all").is_empty());
}

#[test]
fn update_clause_and_unicode_tables() {
    let t = extract_tables_from_sql("UPDATE dbo.TB_\u{c9c4}\u{b8cc} SET x = 1");
    assert_eq!(t, vec!["dbo.TB_\u{c9c4}\u{b8cc}".to_string()]);
}

#[test]
fn hex_dump_has_offsets_and_lines() {
    let dump = tds_extract::format_hex_dump(&[0x01, 0xAB, 0xFF]);
    assert_eq!(dump, "00000000:  01 ab ff");
    let mut long = Vec::new();
    for i in 0..18u8 {
        long.push(i);
    }
    let dump2 = tds_extract::format_hex_dump(&long);
    assert_eq!(
        dump2,
        "00000000:  00 01 02 03 04 05 06 07 08 09 0a 0b 0c 0d 0e 0f\n00000010:  10 11"
    );
    assert_eq!(tds_extract::format_hex_dump(&[]), "");
}

#[test]
fn log_entry_has_exact_shape() {
    let e = SqlEvent {
        timestamp: CivilTime { year: 2024, month: 1, day: 2, hour: 3, minute: 4, second: 5, nanos: 6000000 },
        flow_id: "f".to_string(),
        sql_text: "SELECT x FROM T".to_string(),
        tables: Vec::new(),
        operation: "TDS".to_string(),
        label: None,
        raw_data: Some(vec![1, 2]),
    };
    let rule = "=".repeat(80);
    let entry = tds_extract::format_log_entry(&e);
    assert_eq!(
        entry,
        format!(
            "\n{rule}\nTimestamp: 2024-01-02 03:04:05.006\nFlow: f\nTables: T\nSQL:\nSELECT x FROM T\n{rule}\n"
        )
    );
    let raw_entry = tds_extract::format_raw_log_entry(&e);
    assert_eq!(
        raw_entry,
        format!(
            "\n{rule}\nTimestamp: 2024-01-02 03:04:05.006\nFlow: f\nTables: T\nSQL:\nSELECT x FROM T\n\nRaw Data (Hex):\n00000000:  01 02\n{rule}\n"
        )
    );
    // explicit tables take precedence; without raw bytes both records agree
    let e2 = SqlEvent { tables: vec!["A".to_string(), "B".to_string()], raw_data: None, ..e };
    let entry2 = tds_extract::format_log_entry(&e2);
    assert!(entry2.contains("\nTables: A, B\n"));
    assert_eq!(tds_extract::format_raw_log_entry(&e2), entry2);
}
