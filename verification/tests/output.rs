use csvcut::ResultRow;
use csvcut::Target;
use csvcut::parse::parse_target;
use csvcut::render::ResultWriter;

fn row(fields: &[&str]) -> Vec<String> {
    fields.iter().map(|s| s.to_string()).collect()
}

fn result_row(fields: &[&str]) -> ResultRow {
    ResultRow(row(fields))
}

fn target(selector: &str) -> Target {
    parse_target(selector.as_bytes()).expect("selector should parse")
}

#[test]
fn csv_line_joins_with_commas() {
    let w = ResultWriter::new(false, &target("1"), None);
    assert_eq!("a,c,d", w.write_csv(result_row(&["a", "c", "d"])));
}

#[test]
fn csv_line_single_value() {
    let w = ResultWriter::new(false, &target("1"), None);
    assert_eq!("a", w.write_csv(result_row(&["a"])));
}

#[test]
fn csv_line_empty_row() {
    let w = ResultWriter::new(false, &target("1"), None);
    assert_eq!("", w.write_csv(result_row(&[])));
}

#[test]
fn plain_round_trip_without_header_skip() {
    // Header line and data lines are all treated as data rows.
    let t = target("1,3-");
    let w = ResultWriter::new(false, &t, None);
    let lines: Vec<String> = [
        row(&["a", "b", "c", "d"]),
        row(&["1", "2", "3", "4"]),
        row(&["11", "12", "13", "14"]),
    ]
        .iter()
        .map(|r| w.write_csv(t.select(r)))
        .collect();
    assert_eq!(vec!["a,c,d".to_string(), "1,3,4".to_string(), "11,13,14".to_string()], lines);
}

#[test]
fn plain_round_trip_with_header_skip() {
    // With the header consumed separately, only the data rows are rendered.
    let t = target("1,3-");
    let w = ResultWriter::new(false, &t, Some(row(&["a", "b", "c", "d"])));
    let lines: Vec<String> = [row(&["1", "2", "3", "4"]), row(&["11", "12", "13", "14"])]
        .iter()
        .map(|r| w.write_csv(t.select(r)))
        .collect();
    assert_eq!(vec!["1,3,4".to_string(), "11,13,14".to_string()], lines);
}

#[test]
fn json_array_output() {
    let t = target("2");
    let w = ResultWriter::new(true, &t, None);
    let first = w.write_json(t.select(&row(&["1", "3", "5", "7"]))).unwrap();
    let second = w.write_json(t.select(&row(&["11", "12", "13", "14"]))).unwrap();
    assert_eq!("[\"3\"]", first);
    assert_eq!("[\"12\"]", second);
}

#[test]
fn json_object_output() {
    let t = target("2");
    let w = ResultWriter::new(true, &t, Some(row(&["a", "b", "c", "d"])));
    let first = w.write_json(t.select(&row(&["1", "3", "5", "7"]))).unwrap();
    let second = w.write_json(t.select(&row(&["11", "12", "13", "14"]))).unwrap();
    assert_eq!("{\"b\":\"3\"}", first);
    assert_eq!("{\"b\":\"12\"}", second);
}

#[test]
fn json_array_of_several_values() {
    let w = ResultWriter::new(true, &target("1"), None);
    assert_eq!("[\"a\",\"b\"]", w.write_json(result_row(&["a", "b"])).unwrap());
}

#[test]
fn json_array_escapes_values() {
    let w = ResultWriter::new(true, &target("1"), None);
    assert_eq!("[\"a\\\"b\"]", w.write_json(result_row(&["a\"b"])).unwrap());
}

#[test]
fn json_array_of_nothing() {
    let w = ResultWriter::new(true, &target("1"), None);
    assert_eq!("[]", w.write_json(result_row(&[])).unwrap());
}

#[test]
fn json_object_of_nothing() {
    let w = ResultWriter::new(true, &target("1-"), Some(row(&["a"])));
    assert_eq!("{}", w.write_json(result_row(&[])).unwrap());
}

#[test]
fn json_object_several_pairs_in_order() {
    let w = ResultWriter::new(true, &target("1-"), Some(row(&["a", "b"])));
    assert_eq!("{\"a\":\"1\",\"b\":\"2\"}", w.write_json(result_row(&["1", "2"])).unwrap());
}

#[test]
fn json_object_repeated_header_keeps_last_value() {
    let w = ResultWriter::new(true, &target("1-"), Some(row(&["k", "k"])));
    assert_eq!("{\"k\":\"2\"}", w.write_json(result_row(&["1", "2"])).unwrap());
}

#[test]
fn json_object_extra_values_are_dropped() {
    let w = ResultWriter::new(true, &target("1-"), Some(row(&["a"])));
    assert_eq!("{\"a\":\"1\"}", w.write_json(result_row(&["1", "2"])).unwrap());
}

#[test]
fn selected_header_keys_the_object() {
    // The header is itself run through the selector when the writer is made.
    let t = target("3,1");
    let w = ResultWriter::new(true, &t, Some(row(&["a", "b", "c"])));
    let out = w.write_json(t.select(&row(&["1", "2", "3"]))).unwrap();
    assert_eq!("{\"c\":\"3\",\"a\":\"1\"}", out);
}
