use name_history::dateset::DateSet;
use name_history::import::{parse_multi_line, Format, Session};
use name_history::logging::{select_log_level_filter, LevelFilter};
use name_history::lookup::{Lookup, NameDates, UpdateMode};
use name_history::report::{render_lookup, render_name, render_stats};
use name_history::source::open_input;
use name_history::error::Error;

fn import(store: &mut Lookup, text: &str) -> usize {
    Session::load(text, Format::MultiDate).unwrap().update(store, UpdateMode::Range)
}

fn listing(store: &Lookup, id: u64) -> Vec<String> {
    render_lookup(&store.lookup_by_user_id(id))
}

#[test]
fn a_second_import_adds_to_the_dates() {
    let mut store = Lookup::new();
    assert_eq!(import(&mut store, "42,alice,0,86400,172800\n"), 1);
    assert_eq!(listing(&store, 42), vec!["alice: 1970-01-01, 1970-01-02, 1970-01-03"]);
    assert_eq!(import(&mut store, "42,alice,172800,259200\n"), 1);
    assert_eq!(listing(&store, 42), vec!["alice: 1970-01-01, 1970-01-02, 1970-01-03, 1970-01-04"]);
}

#[test]
fn importing_twice_changes_nothing() {
    let text = "1,a,0,86400\n2,b,172800\n1,a,259200\n1,c\n";
    let mut store = Lookup::new();
    import(&mut store, "1,a,864000\n");
    assert_eq!(import(&mut store, text), 4);
    let once = (listing(&store, 1), listing(&store, 2), store.get_counts());
    assert_eq!(import(&mut store, text), 4);
    let twice = (listing(&store, 1), listing(&store, 2), store.get_counts());
    assert_eq!(once, twice);
    assert_eq!(once.0, vec!["a: 1970-01-01, 1970-01-02, 1970-01-04, 1970-01-11", "c: "]);
    assert_eq!(once.1, vec!["b: 1970-01-03"]);
}

#[test]
fn two_names_of_one_account_come_sorted_by_name() {
    let mut store = Lookup::new();
    import(&mut store, "5,zed,172800,0\n6,other,0\n");
    import(&mut store, "5,alice,86400\n5,zed,86400\n");
    let found = store.lookup_by_user_id(5);
    assert_eq!(found.len(), 2);
    assert_eq!(found[0].name, "alice");
    assert_eq!(found[1].name, "zed");
    assert_eq!(found[0].dates.len(), 1);
    assert_eq!(found[1].dates.len(), 3);
    assert_eq!(listing(&store, 5), vec!["alice: 1970-01-02", "zed: 1970-01-01, 1970-01-02, 1970-01-03"]);
    assert_eq!(listing(&store, 6), vec!["other: 1970-01-01"]);
    assert!(store.lookup_by_user_id(7).is_empty());
}

#[test]
fn names_sort_by_their_text() {
    let mut store = Lookup::new();
    import(&mut store, "1,b\n1,B\n1,a\n1,é\n1,ab\n1,_\n1,Z\n");
    let names: Vec<String> = store.lookup_by_user_id(1).into_iter().map(|item| item.name).collect();
    let mut expected = names.clone();
    expected.sort();
    assert_eq!(names, expected);
    assert_eq!(names, vec!["B", "Z", "_", "a", "ab", "b", "é"]);
}

#[test]
fn counts_of_pairs_accounts_and_names() {
    let mut store = Lookup::new();
    assert_eq!(store.get_counts(), (0, 0, 0));
    import(&mut store, "1,a,0\n1,b,0\n2,a,0\n2,a,86400\n3,c\n3,c,0\n1,a,5\n");
    assert_eq!(store.get_counts(), (4, 3, 3));
    assert_eq!(render_stats(store.get_counts()), vec!["Accounts: 3", "Screen names: 3", "Pairs: 4"]);
    import(&mut store, "9,a,0\n");
    assert_eq!(store.get_counts(), (5, 4, 3));
}

#[test]
fn stats_come_in_a_fixed_order() {
    assert_eq!(render_stats((30, 10, 200)), vec!["Accounts: 10", "Screen names: 200", "Pairs: 30"]);
    assert_eq!(render_stats((0, 0, 0)), vec!["Accounts: 0", "Screen names: 0", "Pairs: 0"]);
}

#[test]
fn a_pair_is_inserted_directly() {
    let mut store = Lookup::new();
    let dates = DateSet::from_timestamps(&vec![86_400, 0]).unwrap();
    store.insert_pair(8, "h", &dates, UpdateMode::Range);
    store.insert_pair(8, "h", &DateSet::new(), UpdateMode::Range);
    store.insert_pair(8, "h", &DateSet::from_timestamps(&vec![-1]).unwrap(), UpdateMode::Range);
    assert_eq!(listing(&store, 8), vec!["h: 1969-12-31, 1970-01-01, 1970-01-02"]);
    assert_eq!(store.get_counts(), (1, 1, 1));
    let record = parse_multi_line("8,i,0").unwrap();
    store.insert_pair(record.id(), record.name(), record.dates(), UpdateMode::Range);
    assert_eq!(store.get_counts(), (2, 1, 2));
}

#[test]
fn a_name_line() {
    let item = NameDates { name: "n".to_string(), dates: DateSet::from_timestamps(&vec![0]).unwrap() };
    assert_eq!(render_name(&item), "n: 1970-01-01");
    let item = NameDates { name: "n".to_string(), dates: DateSet::new() };
    assert_eq!(render_name(&item), "n: ");
}

#[test]
fn an_empty_session_updates_nothing() {
    let mut store = Lookup::new();
    assert_eq!(import(&mut store, ""), 0);
    assert_eq!(store.get_counts(), (0, 0, 0));
}

#[test]
fn log_levels() {
    assert_eq!(select_log_level_filter(0), LevelFilter::Off);
    assert_eq!(select_log_level_filter(1), LevelFilter::Error);
    assert_eq!(select_log_level_filter(2), LevelFilter::Warn);
    assert_eq!(select_log_level_filter(3), LevelFilter::Info);
    assert_eq!(select_log_level_filter(4), LevelFilter::Debug);
    assert_eq!(select_log_level_filter(5), LevelFilter::Trace);
    assert_eq!(select_log_level_filter(-1), LevelFilter::Trace);
    assert_eq!(select_log_level_filter(i32::MAX), LevelFilter::Trace);
}

#[test]
fn plain_input_passes_through() {
    assert_eq!(open_input(b"1,a,0\n".to_vec(), false).unwrap(), b"1,a,0\n".to_vec());
    assert_eq!(open_input(Vec::new(), false).unwrap(), Vec::<u8>::new());
}

#[test]
fn compressed_input_is_decompressed() {
    let plain = b"[\"1\",\"a\",[0,86400]]\n".to_vec();
    let packed = zstd::stream::encode_all(plain.as_slice(), 3).unwrap();
    assert_ne!(packed, plain);
    assert_eq!(open_input(packed.clone(), true).unwrap(), plain);
    assert_eq!(open_input(packed.clone(), false).unwrap(), packed);
    let text = String::from_utf8(open_input(packed, true).unwrap()).unwrap();
    assert_eq!(Session::load_json(&text).unwrap().len(), 1);
}

#[test]
fn malformed_compressed_input_is_an_io_error() {
    let error = open_input(b"this is not a zstd frame".to_vec(), true).unwrap_err();
    assert!(matches!(error, Error::Io(_)));
    assert_eq!(error.message(), "I/O error");
}
