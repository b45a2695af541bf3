use records::parser::{parse_record, ParseError, Record};
use records::store::{load_records, Records};

fn rec(id: i64, name: &str) -> Record {
    Record { id, name: name.to_owned(), email: None }
}

#[test]
fn next_id_on_empty_store_is_one() {
    let store = Records::new();
    assert_eq!(store.next_id(), 1);
}

#[test]
fn next_id_is_one_past_the_largest_id() {
    let mut store = Records::new();
    store.add(rec(3, "a"));
    store.add(rec(7, "b"));
    store.add(rec(1, "c"));
    assert_eq!(store.next_id(), 8);
}

#[test]
fn adding_the_same_id_twice_keeps_only_the_latest() {
    let mut store = Records::new();
    store.add(rec(4, "first"));
    store.add(rec(4, "second"));
    let all = store.into_vec();
    assert_eq!(all.len(), 1);
    assert_eq!(all[0].id, 4);
    assert_eq!(all[0].name, "second");
}

#[test]
fn into_vec_is_sorted_by_id_and_drains_the_store() {
    let mut store = Records::new();
    store.add(rec(5, "e"));
    store.add(rec(1, "a"));
    store.add(rec(3, "c"));
    let all = store.into_vec();
    let ids: Vec<i64> = all.iter().map(|r| r.id).collect();
    assert_eq!(ids, vec![1, 3, 5]);
    assert_eq!(store.next_id(), 1);
    let again = store.into_vec();
    assert!(again.is_empty());
}

#[test]
fn load_records_skips_malformed_lines_and_keeps_going() {
    let (mut store, diags) = load_records("1,Alice\n,NoId\n2,Bob\n", false);
    assert!(diags.is_empty());
    let all = store.into_vec();
    let ids: Vec<i64> = all.iter().map(|r| r.id).collect();
    assert_eq!(ids, vec![1, 2]);
    assert_eq!(all[0].name, "Alice");
    assert_eq!(all[1].name, "Bob");
}

#[test]
fn load_records_verbose_reports_the_malformed_line() {
    let (_, diags) = load_records("1,Alice\n,NoId\n2,Bob\n", true);
    assert_eq!(diags.len(), 1);
    assert_eq!(diags[0].line, 2);
    assert_eq!(diags[0].raw, ",NoId");
    assert!(matches!(diags[0].error, ParseError::InvalidId));
}

#[test]
fn load_records_skips_empty_lines_silently() {
    let (mut store, diags) = load_records("\n1,Alice\n\n\n2,Bob", true);
    assert!(diags.is_empty());
    let all = store.into_vec();
    assert_eq!(all.len(), 2);
}

#[test]
fn load_records_later_line_wins_on_equal_ids() {
    let (mut store, _) = load_records("2,Old\n2,New\n", false);
    let all = store.into_vec();
    assert_eq!(all.len(), 1);
    assert_eq!(all[0].name, "New");
}

#[test]
fn load_records_on_empty_text_yields_an_empty_store() {
    let (mut store, diags) = load_records("", true);
    assert!(diags.is_empty());
    assert_eq!(store.next_id(), 1);
    assert!(store.into_vec().is_empty());
}

#[test]
fn load_records_takes_text_without_a_trailing_newline() {
    let (mut store, diags) = load_records("1,Alice\n2,Bob", true);
    assert!(diags.is_empty());
    assert_eq!(store.into_vec().len(), 2);
}

#[test]
fn a_parsed_record_round_trips_through_the_store() {
    let parsed = parse_record("9,Ida,ida@example.com").unwrap();
    let mut store = Records::new();
    store.add(parsed);
    assert_eq!(store.next_id(), 10);
    let all = store.into_vec();
    assert_eq!(all.len(), 1);
    assert_eq!(all[0].email.as_deref(), Some("ida@example.com"));
}
