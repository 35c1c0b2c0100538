use split_kb_core::dispatch::DispatchQueue;
use split_kb_core::event::KeyEvent;
use split_kb_core::report::build_report;

#[test]
fn report_lays_out_modifiers_and_slots() {
    let report = build_report(&vec![224, 4, 5, 231]);
    assert_eq!(report.bytes, vec![0b1000_0001, 0, 4, 5, 0, 0, 0, 0]);
}

#[test]
fn report_drops_keys_beyond_the_cap() {
    let report = build_report(&vec![4, 5, 6, 7, 8, 9, 10, 11]);
    assert_eq!(report.bytes, vec![0, 0, 4, 5, 6, 7, 8, 9]);
}

#[test]
fn report_skips_duplicates_and_null_codes() {
    let report = build_report(&vec![0, 4, 4, 5]);
    assert_eq!(report.bytes, vec![0, 0, 4, 5, 0, 0, 0, 0]);
}

#[test]
fn empty_report_is_all_zero() {
    let report = build_report(&Vec::new());
    assert_eq!(report.bytes, vec![0, 0, 0, 0, 0, 0, 0, 0]);
}

#[test]
fn queue_is_first_in_first_out() {
    let mut q = DispatchQueue::new(8);
    assert!(q.push(KeyEvent::Press(0, 0)));
    assert!(q.push(KeyEvent::Press(0, 1)));
    assert!(q.push(KeyEvent::Release(0, 0)));
    assert_eq!(q.pop(), Some(KeyEvent::Press(0, 0)));
    assert_eq!(q.pop(), Some(KeyEvent::Press(0, 1)));
    assert_eq!(q.pop(), Some(KeyEvent::Release(0, 0)));
    assert_eq!(q.pop(), None);
}

#[test]
fn full_queue_refuses_events() {
    let mut q = DispatchQueue::new(8);
    for i in 0..8 {
        assert!(q.push(KeyEvent::Press(0, i)));
    }
    assert!(!q.push(KeyEvent::Press(1, 0)));
    assert_eq!(q.len(), 8);
    assert_eq!(q.pop(), Some(KeyEvent::Press(0, 0)));
    assert!(q.push(KeyEvent::Press(1, 0)));
}
