use name_history::dateset::DateSet;
use name_history::error::{Error, Rejection};
use name_history::import::{parse_line, parse_multi_line, read_line, read_multi_line, Format, Session};
use name_history::record::{normalize, PairRecord, RawRecord};

fn days(record: &PairRecord) -> Vec<i32> {
    record.dates().to_vec().iter().map(|d| d.epoch_days()).collect()
}

fn texts(record: &PairRecord) -> Vec<String> {
    record.dates().to_vec().iter().map(|d| d.iso_text()).collect()
}

fn raw(identifier: &str, name: &str, timestamps: Vec<i64>) -> RawRecord {
    RawRecord { identifier: identifier.to_string(), name: name.to_string(), timestamps }
}

fn rejected_line(result: Result<PairRecord, Error>) -> String {
    match result {
        Err(Error::InvalidImportLine(line)) => line,
        other => panic!("expected a malformed line, got {:?}", other),
    }
}

#[test]
fn a_line_with_three_timestamps() {
    let record = parse_multi_line("42,alice,0,86400,172800").unwrap();
    assert_eq!(record.id(), 42);
    assert_eq!(record.name(), "alice");
    assert_eq!(texts(&record), vec!["1970-01-01", "1970-01-02", "1970-01-03"]);
}

#[test]
fn dates_are_sorted_and_not_repeated() {
    let record = parse_multi_line("7,bob,172800,5,86400,0,86401,172799").unwrap();
    assert_eq!(days(&record), vec![0, 1, 2]);
    let record = parse_multi_line("7,bob,-1,-86400,-86401").unwrap();
    assert_eq!(days(&record), vec![-2, -1]);
}

#[test]
fn a_line_without_timestamps_is_a_pair_without_dates() {
    let record = parse_multi_line("42,alice").unwrap();
    assert_eq!(record.id(), 42);
    assert_eq!(record.name(), "alice");
    assert!(days(&record).is_empty());
}

#[test]
fn a_line_with_one_field_is_rejected_with_the_line() {
    assert_eq!(rejected_line(parse_multi_line("42")), "42");
    assert_eq!(rejected_line(parse_multi_line("")), "");
    assert_eq!(rejected_line(parse_multi_line("alice")), "alice");
}

#[test]
fn a_bad_identifier_rejects_the_line() {
    assert_eq!(rejected_line(parse_multi_line("x42,alice,0")), "x42,alice,0");
    assert_eq!(rejected_line(parse_multi_line("-1,alice,0")), "-1,alice,0");
    assert_eq!(rejected_line(parse_multi_line(",alice,0")), ",alice,0");
    assert_eq!(
        rejected_line(parse_multi_line("18446744073709551616,alice")),
        "18446744073709551616,alice"
    );
    assert_eq!(parse_multi_line("18446744073709551615,alice").unwrap().id(), u64::MAX);
}

#[test]
fn a_bad_timestamp_rejects_the_whole_line() {
    assert_eq!(rejected_line(parse_multi_line("42,alice,0,abc,172800")), "42,alice,0,abc,172800");
    assert_eq!(rejected_line(parse_multi_line("42,alice,0,86400,")), "42,alice,0,86400,");
    assert_eq!(rejected_line(parse_multi_line("42,alice,0, 86400")), "42,alice,0, 86400");
    assert_eq!(rejected_line(parse_multi_line("42,alice,1.5")), "42,alice,1.5");
    assert_eq!(
        rejected_line(parse_multi_line("42,alice,9223372036854775808")),
        "42,alice,9223372036854775808"
    );
    assert!(read_multi_line("42,alice,0,abc,172800").is_none());
}

#[test]
fn an_empty_name_rejects_the_line() {
    assert_eq!(rejected_line(parse_multi_line("42,,0")), "42,,0");
    assert_eq!(rejected_line(parse_multi_line("42,")), "42,");
}

#[test]
fn a_timestamp_outside_the_calendar_rejects_the_line() {
    assert_eq!(
        rejected_line(parse_multi_line("42,alice,0,9223372036854775807")),
        "42,alice,0,9223372036854775807"
    );
    let fields = read_multi_line("42,alice,0,9223372036854775807").unwrap();
    assert_eq!(fields.timestamps, vec![0, i64::MAX]);
}

#[test]
fn names_are_kept_as_they_are() {
    assert_eq!(parse_multi_line("1, Alice ,0").unwrap().name(), " Alice ");
    assert_eq!(parse_multi_line("1,Ünïcødé,0").unwrap().name(), "Ünïcødé");
    assert_eq!(parse_multi_line("+1,a").unwrap().id(), 1);
}

#[test]
fn fields_of_a_line() {
    let fields = read_multi_line("042,alice,86400,-5,+7").unwrap();
    assert_eq!(fields.identifier, "042");
    assert_eq!(fields.name, "alice");
    assert_eq!(fields.timestamps, vec![86400, -5, 7]);
    assert!(read_multi_line("42").is_none());
    assert!(read_multi_line("x,alice").is_none());
    let fields = read_multi_line("42,").unwrap();
    assert_eq!(fields.name, "");
}

#[test]
fn normalizing_names_its_reason() {
    assert_eq!(normalize(&raw("x", "alice", vec![0])).unwrap_err(), Rejection::Identifier);
    assert_eq!(normalize(&raw("", "", vec![i64::MAX])).unwrap_err(), Rejection::Identifier);
    assert_eq!(normalize(&raw("1", "", vec![i64::MAX])).unwrap_err(), Rejection::EmptyName);
    assert_eq!(normalize(&raw("1", "a", vec![0, i64::MIN])).unwrap_err(), Rejection::Timestamp);
    let record = normalize(&raw("1", "a", vec![86_400, 0, 86_400])).unwrap();
    assert_eq!((record.id(), record.name()), (1, "a"));
    assert_eq!(days(&record), vec![0, 1]);
}

#[test]
fn a_record_needs_a_name() {
    assert!(PairRecord::new(1, String::new(), DateSet::new()).is_none());
    let record = PairRecord::new(1, "a".to_string(), DateSet::new()).unwrap();
    assert_eq!((record.id(), record.name(), record.dates().len()), (1, "a", 0));
}

#[test]
fn a_mention_needs_a_timestamp() {
    let record = parse_line("42,alice,86400", Format::Mentions).unwrap();
    assert_eq!((record.id(), record.name()), (42, "alice"));
    assert_eq!(days(&record), vec![1]);
    assert_eq!(days(&parse_line("42,alice,86400,0", Format::Mentions).unwrap()), vec![0, 1]);
    assert_eq!(rejected_line(parse_line("42,alice", Format::Mentions)), "42,alice");
    assert_eq!(rejected_line(parse_line("42,alice,", Format::Mentions)), "42,alice,");
    assert!(read_line("42,alice", Format::Mentions).is_err());
    assert!(read_line("42,alice", Format::MultiDate).is_ok());
}

#[test]
fn a_json_line_is_an_array_of_identifier_name_and_timestamps() {
    let record = parse_line(r#"["42","alice",[172800,0,86400,0]]"#, Format::Json).unwrap();
    assert_eq!((record.id(), record.name()), (42, "alice"));
    assert_eq!(days(&record), vec![0, 1, 2]);
    let fields = read_line(r#" [ "7" , "bé" , [] ] "#, Format::Json).unwrap();
    assert_eq!((fields.identifier.as_str(), fields.name.as_str()), ("7", "bé"));
    assert!(fields.timestamps.is_empty());
}

#[test]
fn a_json_line_that_does_not_decode_is_a_json_error() {
    for line in ["", "{", r#"["42","alice"]"#, r#"[42,"alice",[0]]"#, r#"["42","alice",[1.5]]"#, "42,alice,0"] {
        assert!(matches!(parse_line(line, Format::Json), Err(Error::Json(_))), "input {:?}", line);
    }
}

#[test]
fn a_json_record_that_is_not_accepted_is_a_malformed_line() {
    assert_eq!(rejected_line(parse_line(r#"["x","alice",[0]]"#, Format::Json)), r#"["x","alice",[0]]"#);
    assert_eq!(rejected_line(parse_line(r#"["1","",[0]]"#, Format::Json)), r#"["1","",[0]]"#);
}

#[test]
fn a_session_holds_the_records_in_order() {
    let session = Session::load("2,b,86400\n1,a,0\r\n2,b,0\n", Format::MultiDate).unwrap();
    assert_eq!(session.len(), 3);
    assert_eq!((session.get(0).id(), session.get(0).name()), (2, "b"));
    assert_eq!((session.get(1).id(), session.get(1).name()), (1, "a"));
    assert_eq!(days(session.get(2)), vec![0]);
    assert_eq!(Session::load("", Format::MultiDate).unwrap().len(), 0);
}

#[test]
fn loading_stops_at_the_first_bad_line() {
    match Session::load("1,a,0\n2\n,,\n", Format::MultiDate) {
        Err(Error::InvalidImportLine(line)) => assert_eq!(line, "2"),
        other => panic!("unexpected {:?}", other),
    }
    match Session::load_mentions("1,a,0\n2,b\n3,c,x\n") {
        Err(Error::InvalidImportLine(line)) => assert_eq!(line, "2,b"),
        other => panic!("unexpected {:?}", other),
    }
    assert!(matches!(
        Session::load_json("[\"1\",\"a\",[0]]\nnot json\n[\"x\",\"a\",[0]]\n"),
        Err(Error::Json(_))
    ));
    match Session::load_json("[\"1\",\"a\",[0]]\n[\"x\",\"a\",[0]]\nnot json\n") {
        Err(Error::InvalidImportLine(line)) => assert_eq!(line, "[\"x\",\"a\",[0]]"),
        other => panic!("unexpected {:?}", other),
    }
    match Session::load("1,a,0\n\n2,b,0\n", Format::MultiDate) {
        Err(Error::InvalidImportLine(line)) => assert_eq!(line, ""),
        other => panic!("unexpected {:?}", other),
    }
}

#[test]
fn batches_in_the_other_formats() {
    let session = Session::load_json("[\"1\",\"a\",[0,86400]]\n[\"2\",\"b\",[]]\n").unwrap();
    assert_eq!(session.len(), 2);
    assert_eq!(days(session.get(0)), vec![0, 1]);
    assert_eq!((session.get(1).id(), session.get(1).name()), (2, "b"));
    let session = Session::load_mentions("1,a,0\n1,a,86400\n1,b,0").unwrap();
    assert_eq!(session.len(), 3);
    assert_eq!(days(session.get(1)), vec![1]);
}

#[test]
fn errors_describe_themselves() {
    assert_eq!(parse_multi_line("x").unwrap_err().message(), "Invalid import line");
    assert_eq!(parse_line("x", Format::Json).unwrap_err().message(), "JSON error");
}
