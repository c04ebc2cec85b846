use exar_core::error::{DatabaseError, EventStreamError};
use exar_core::event::Event;
use exar_core::lines_index::LinesIndex;
use exar_core::query::{Query, Subscription};
use exar_core::scanner::{command_result, Scanner, ScannerAction, ScannerThread};

use std::sync::mpsc::{channel, TryRecvError};

fn line(id: u64, tags: &str, data: &str) -> String {
    format!("{}\t{}\t{}\t{}\n", id, 1000 + id, tags, data)
}

fn worker() -> ScannerThread {
    ScannerThread::new(LinesIndex::new(100000))
}

#[test]
fn test_scanner_constructor() {
    let (send, recv) = channel();
    let mut scanner = Scanner::new(send);
    assert_eq!(recv.try_recv().err(), Some(TryRecvError::Empty));
    assert!(scanner.add_line_index(0, 10).is_ok());
    match recv.try_recv() {
        Ok(ScannerAction::AddLineIndex(0, 10)) => (),
        _ => panic!("Expected to receive an AddLineIndex message"),
    }
}

#[test]
fn test_scanner_constructor_failure() {
    let (send, recv) = channel();
    let mut scanner = Scanner::new(send);
    drop(recv);
    assert_eq!(
        scanner.add_line_index(0, 10),
        Err(DatabaseError::EventStreamError(EventStreamError::Closed))
    );
}

#[test]
fn test_scanner_message_passing() {
    let (send, recv) = channel();
    let mut scanner = Scanner::new(send);

    let (event_send, _) = channel();
    let query = Query::live();
    let subscription = Subscription::new(event_send, query.clone());

    assert!(scanner.handle_subscription(subscription).is_ok());

    match recv.recv() {
        Ok(ScannerAction::HandleSubscription(s)) => {
            assert_eq!(s.query, query);
        }
        _ => panic!("Expected to receive an HandleSubscription message"),
    }

    assert!(scanner.stop().is_ok());

    match recv.recv() {
        Ok(ScannerAction::Stop) => (),
        _ => panic!("Expected to receive a Stop message"),
    }

    drop(recv);

    assert!(scanner.stop().is_err());
}

#[test]
fn test_scanner_thread_stop() {
    let mut thread = worker();
    let (send, _recv) = channel();
    assert!(thread.handle_action(ScannerAction::HandleSubscription(Subscription::new(send, Query::live()))));
    assert_eq!(thread.subscriptions.len(), 1);

    assert!(!thread.handle_action(ScannerAction::Stop));
    assert_eq!(thread.subscriptions.len(), 0);
}

#[test]
fn test_scanner_thread_subscriptions_management() {
    let log = vec![line(1, "tag1,tag2", "data")];
    let mut thread = worker();

    let (send, recv) = channel();
    let live_subscription = Subscription::new(send, Query::live());
    assert!(thread.handle_action(ScannerAction::HandleSubscription(live_subscription)));

    let start = thread.find_min_offset();
    thread.scan(start, &log);
    thread.retain_active_subscriptions();

    let event = recv.try_recv().expect("an event");
    assert_eq!(event.id, 1);
    assert_eq!(event.tags, vec!["tag1".to_string(), "tag2".to_string()]);
    assert_eq!(event.data, "data");
    assert_eq!(recv.try_recv().err(), Some(TryRecvError::Empty));

    let (send, recv) = channel();
    let current_subscription = Subscription::new(send, Query::current());
    assert!(thread.handle_action(ScannerAction::HandleSubscription(current_subscription)));

    let start = thread.find_min_offset();
    assert_eq!(start, 0);
    let tail: Vec<String> = log.iter().skip(0).cloned().collect();
    thread.scan(start, &tail);
    thread.retain_active_subscriptions();

    assert_eq!(recv.try_recv().map(|e| e.id), Ok(1));
    assert_eq!(recv.try_recv().err(), Some(TryRecvError::Disconnected));
    assert_eq!(thread.subscriptions.len(), 1);
}

#[test]
fn live_subscription_gets_each_event_once() {
    let first = line(1, "tag1,tag2", "data");
    let second = line(2, "tag1", "more");
    let mut thread = worker();
    let (send, recv) = channel();
    thread.handle_action(ScannerAction::HandleSubscription(Subscription::new(send, Query::live())));

    thread.scan(0, &vec![first.clone()]);
    thread.retain_active_subscriptions();
    let after_first = first.len() as u64;
    assert_eq!(thread.find_min_offset(), after_first);

    thread.scan(0, &vec![first.clone(), second.clone()]);
    thread.retain_active_subscriptions();

    let ids: Vec<u64> = recv.try_iter().map(|e| e.id).collect();
    assert_eq!(ids, vec![1, 2]);
    assert_eq!(thread.find_min_offset(), (first.len() + second.len()) as u64);
}

#[test]
fn two_subscriptions_advance_independently() {
    let first = line(1, "a", "one");
    let second = line(2, "b", "two");
    let after_first = first.len() as u64;
    let mut thread = worker();

    let (send_a, recv_a) = channel();
    let (send_b, recv_b) = channel();
    thread.handle_action(ScannerAction::HandleSubscription(Subscription::new(send_a, Query::live())));
    thread.handle_action(ScannerAction::HandleSubscription(Subscription::new(
        send_b,
        Query::live().with_position(after_first),
    )));

    assert_eq!(thread.find_min_offset(), 0);
    thread.scan(0, &vec![first.clone(), second.clone()]);
    thread.retain_active_subscriptions();

    let a: Vec<u64> = recv_a.try_iter().map(|e| e.id).collect();
    let b: Vec<u64> = recv_b.try_iter().map(|e| e.id).collect();
    assert_eq!(a, vec![1, 2]);
    assert_eq!(b, vec![2]);
    let end = (first.len() + second.len()) as u64;
    assert_eq!(thread.subscriptions[0].query.position, end);
    assert_eq!(thread.subscriptions[1].query.position, end);
}

#[test]
fn min_offset_is_least_position() {
    let mut thread = worker();
    assert_eq!(thread.find_min_offset(), 0);
    for p in [40u64, 7, 19] {
        let (send, _recv) = channel();
        std::mem::forget(_recv);
        thread.handle_action(ScannerAction::HandleSubscription(Subscription::new(
            send,
            Query::live().with_position(p),
        )));
    }
    assert_eq!(thread.find_min_offset(), 7);
}

#[test]
fn no_subscription_means_no_scan() {
    let mut thread = worker();
    assert!(!thread.needs_scan());
    thread.scan(0, &vec![line(1, "", "x")]);
    assert_eq!(thread.subscriptions.len(), 0);
}

#[test]
fn filter_selects_by_tag() {
    let mut thread = worker();
    let (send, recv) = channel();
    let query = Query::new(exar_core::query::QueryMode::Live, vec!["b".to_string()]);
    thread.handle_action(ScannerAction::HandleSubscription(Subscription::new(send, query)));
    thread.scan(0, &vec![line(1, "a", "x"), line(2, "a,b", "y"), line(3, "", "z")]);
    let ids: Vec<u64> = recv.try_iter().map(|e| e.id).collect();
    assert_eq!(ids, vec![2]);
}

#[test]
fn bad_and_partial_lines_are_skipped() {
    let mut thread = worker();
    let (send, recv) = channel();
    thread.handle_action(ScannerAction::HandleSubscription(Subscription::new(send, Query::live())));
    let good = line(2, "t", "ok");
    let bad = "not an event\n".to_string();
    let partial = "3\t1003\tt".to_string();
    thread.scan(0, &vec![bad.clone(), good.clone(), partial]);
    let ids: Vec<u64> = recv.try_iter().map(|e| e.id).collect();
    assert_eq!(ids, vec![2]);
    assert_eq!(thread.subscriptions[0].query.position, (bad.len() + good.len()) as u64);
}

#[test]
fn dropped_receiver_is_pruned() {
    let mut thread = worker();
    let (send, recv) = channel();
    thread.handle_action(ScannerAction::HandleSubscription(Subscription::new(send, Query::live())));
    drop(recv);
    thread.scan(0, &vec![line(1, "", "x")]);
    assert!(!thread.subscriptions[0].is_active());
    thread.retain_active_subscriptions();
    assert_eq!(thread.subscriptions.len(), 0);
}

#[test]
fn worker_applies_index_commands() {
    let mut thread = ScannerThread::new(LinesIndex::new(2));
    assert!(thread.handle_action(ScannerAction::AddLineIndex(0, 10)));
    assert!(thread.handle_action(ScannerAction::AddLineIndex(1, 5)));
    assert_eq!(thread.index.line_count(), 2);
    assert_eq!(thread.index.nearest_for_line(3), (2, 15));
    // out of order: ignored
    assert!(thread.handle_action(ScannerAction::AddLineIndex(7, 5)));
    assert_eq!(thread.index.line_count(), 2);
    // an empty line: refused
    assert!(thread.handle_action(ScannerAction::AddLineIndex(2, 0)));
    assert_eq!(thread.index.line_count(), 2);
    assert!(thread.handle_action(ScannerAction::UpdateIndex(LinesIndex::new(5))));
    assert_eq!(thread.index.line_count(), 0);
}

#[test]
fn command_result_maps_closed_stream() {
    assert_eq!(command_result(true), Ok(()));
    assert_eq!(
        command_result(false),
        Err(DatabaseError::EventStreamError(EventStreamError::Closed))
    );
}

#[test]
fn emit_marks_subscription_inactive_when_receiver_is_gone() {
    let (send, recv) = channel();
    let mut s = Subscription::new(send, Query::live());
    let event = Event::from_tab_separated_str("1\t2\t\tx").expect("an event");
    assert!(s.emit(event.clone()));
    assert_eq!(recv.try_recv().map(|e| e.id), Ok(1));
    drop(recv);
    assert!(!s.emit(event));
    assert!(!s.is_active());
}
