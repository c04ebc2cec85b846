use exar_core::config::ServerConfig;
use exar_core::event::{DecodeError, Event};
use exar_core::lines_index::LinesIndex;
use exar_core::query::{Query, QueryMode};

#[test]
fn decodes_a_full_line() {
    let e = Event::from_tab_separated_str("12\t1500\ttag1,tag2\tsome data").expect("an event");
    assert_eq!(e.id, 12);
    assert_eq!(e.timestamp, 1500);
    assert_eq!(e.tags, vec!["tag1".to_string(), "tag2".to_string()]);
    assert_eq!(e.data, "some data");
}

#[test]
fn decodes_empty_tags_and_tabs_in_data() {
    let e = Event::from_tab_separated_str("1\t2\t\ta\tb").expect("an event");
    assert!(e.tags.is_empty());
    assert_eq!(e.data, "a\tb");
    let e = Event::from_tab_separated_str("1\t2\t,x,\t").expect("an event");
    assert_eq!(e.tags, vec!["".to_string(), "x".to_string(), "".to_string()]);
    assert_eq!(e.data, "");
}

#[test]
fn rejects_missing_fields() {
    assert_eq!(Event::from_tab_separated_str("1\t2\ttags").err(), Some(DecodeError::MissingFields));
    assert_eq!(Event::from_tab_separated_str("").err(), Some(DecodeError::MissingFields));
}

#[test]
fn rejects_bad_numbers() {
    assert_eq!(Event::from_tab_separated_str("x\t2\t\td").err(), Some(DecodeError::InvalidNumber));
    assert_eq!(Event::from_tab_separated_str("\t2\t\td").err(), Some(DecodeError::InvalidNumber));
    assert_eq!(Event::from_tab_separated_str("1\t-2\t\td").err(), Some(DecodeError::InvalidNumber));
    assert_eq!(
        Event::from_tab_separated_str("18446744073709551616\t2\t\td").err(),
        Some(DecodeError::InvalidNumber)
    );
    let e = Event::from_tab_separated_str("18446744073709551615\t0\t\td").expect("an event");
    assert_eq!(e.id, u64::MAX);
}

#[test]
fn index_samples_every_granularity_lines() {
    let mut index = LinesIndex::new(3);
    let lens = [10u64, 20, 30, 40, 50, 60, 70];
    for (i, len) in lens.iter().enumerate() {
        assert!(index.insert(i as u64, *len));
    }
    assert_eq!(index.line_count(), 7);
    assert_eq!(index.end_offset(), 280);
    assert_eq!(index.nearest_for_line(0), (0, 0));
    assert_eq!(index.nearest_for_line(2), (0, 0));
    assert_eq!(index.nearest_for_line(3), (3, 60));
    assert_eq!(index.nearest_for_line(5), (3, 60));
    assert_eq!(index.nearest_for_line(6), (6, 210));
    assert_eq!(index.nearest_for_line(100), (6, 210));
    assert_eq!(index.nearest_for_offset(0), (0, 0));
    assert_eq!(index.nearest_for_offset(59), (0, 0));
    assert_eq!(index.nearest_for_offset(60), (3, 60));
    assert_eq!(index.nearest_for_offset(209), (3, 60));
    assert_eq!(index.nearest_for_offset(1000), (6, 210));
}

#[test]
fn index_refuses_out_of_order_and_overflowing_lines() {
    let mut index = LinesIndex::new(2);
    assert!(!index.insert(1, 5));
    assert!(!index.insert(0, 0));
    assert!(index.insert(0, u64::MAX - 1));
    assert!(!index.insert(1, 2));
    assert!(index.insert(1, 1));
    assert_eq!(index.end_offset(), u64::MAX);
    assert_eq!(index.nearest_for_line(2), (2, u64::MAX));
}

#[test]
fn query_modes() {
    let live = Query::live();
    assert!(live.is_live() && live.is_active());
    let current = Query::current();
    assert!(!current.is_live() && current.is_active());
    let q = Query::new(QueryMode::Current, vec!["a".to_string()]);
    assert!(q.matches_tags(&vec!["b".to_string(), "a".to_string()]));
    assert!(!q.matches_tags(&vec!["b".to_string()]));
    assert!(!q.matches_tags(&vec![]));
    assert!(live.matches_tags(&vec![]));
}

#[test]
fn server_address() {
    let config = ServerConfig::default();
    assert_eq!(config.address(), "127.0.0.1:38580");
    let other = ServerConfig { host: "localhost".to_string(), port: 7, username: None, password: None };
    assert_eq!(other.address(), "localhost:7");
}

#[test]
fn event_builders() {
    let e = Event::new("data".to_string(), vec!["tag1".to_string(), "tag2".to_string()]);
    assert_eq!(e.id, 0);
    assert_eq!(e.timestamp, 0);
    let e = e.with_id(1).with_timestamp(99);
    assert_eq!(e.id, 1);
    assert_eq!(e.timestamp, 99);
    assert_eq!(e.data, "data");
    assert_eq!(e.tags.len(), 2);
}

#[test]
fn encodes_an_event() {
    let e = Event::new("data".to_string(), vec!["tag1".to_string(), "tag2".to_string()])
        .with_id(1)
        .with_timestamp(1500);
    assert_eq!(e.to_tab_separated_string(), "1\t1500\ttag1,tag2\tdata");
    let e = Event::new("x\ty".to_string(), vec![]).with_id(10).with_timestamp(0);
    assert_eq!(e.to_tab_separated_string(), "10\t0\t\tx\ty");
}

#[test]
fn encoding_reads_back() {
    let e = Event::new("payload with\ttab".to_string(), vec!["a".to_string(), "".to_string(), "c".to_string()])
        .with_id(u64::MAX)
        .with_timestamp(42);
    let back = Event::from_tab_separated_str(&e.to_tab_separated_string()).expect("an event");
    assert_eq!(back.id, e.id);
    assert_eq!(back.timestamp, e.timestamp);
    assert_eq!(back.tags, e.tags);
    assert_eq!(back.data, e.data);
}

#[test]
fn index_from_lengths() {
    let index = LinesIndex::from_lengths(2, &vec![3, 4, 5]).expect("an index");
    assert_eq!(index.nearest_for_line(2), (2, 7));
    assert_eq!(index.end_offset(), 12);
    assert!(LinesIndex::from_lengths(2, &vec![3, 0, 5]).is_none());
    assert!(LinesIndex::from_lengths(2, &vec![u64::MAX, 1]).is_none());
}
