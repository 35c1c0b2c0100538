use split_kb_core::debounce::Debouncer;
use split_kb_core::event::KeyEvent;

fn grid(rows: usize, cols: usize, pressed: &[(usize, usize)]) -> Vec<Vec<bool>> {
    let mut g = vec![vec![false; cols]; rows];
    for &(r, c) in pressed {
        g[r][c] = true;
    }
    g
}

#[test]
fn glitch_below_threshold_emits_nothing() {
    let mut d = Debouncer::new(1, 1, 5);
    let mut total: usize = 0;
    // four ticks closed, then open again: the counter never reaches five
    for _ in 0..4 {
        total += d.events(&grid(1, 1, &[(0, 0)])).len();
    }
    total += d.events(&grid(1, 1, &[])).len();
    // an oscillating signal never confirms either
    for i in 0..20 {
        let g = if i % 2 == 0 { grid(1, 1, &[(0, 0)]) } else { grid(1, 1, &[]) };
        total += d.events(&g).len();
    }
    assert_eq!(total, 0);
}

#[test]
fn steady_signal_emits_one_event() {
    let mut d = Debouncer::new(1, 1, 5);
    let mut events = Vec::new();
    for _ in 0..8 {
        events.extend(d.events(&grid(1, 1, &[(0, 0)])));
    }
    assert_eq!(events, vec![KeyEvent::Press(0, 0)]);
    events.clear();
    for _ in 0..8 {
        events.extend(d.events(&grid(1, 1, &[])));
    }
    assert_eq!(events, vec![KeyEvent::Release(0, 0)]);
}

#[test]
fn threshold_one_confirms_immediately() {
    let mut d = Debouncer::new(1, 1, 1);
    let events = d.events(&grid(1, 1, &[(0, 0)]));
    assert_eq!(events, vec![KeyEvent::Press(0, 0)]);
}

#[test]
fn events_come_in_row_major_order() {
    let mut d = Debouncer::new(2, 2, 2);
    let g = grid(2, 2, &[(0, 1), (1, 0)]);
    assert!(d.events(&g).is_empty());
    let events = d.events(&g);
    assert_eq!(events, vec![KeyEvent::Press(0, 1), KeyEvent::Press(1, 0)]);
}

#[test]
fn independent_counters_per_cell() {
    let mut d = Debouncer::new(1, 2, 3);
    // (0,0) held from the start; (0,1) joins one tick later
    assert!(d.events(&grid(1, 2, &[(0, 0)])).is_empty());
    assert!(d.events(&grid(1, 2, &[(0, 0), (0, 1)])).is_empty());
    let events = d.events(&grid(1, 2, &[(0, 0), (0, 1)]));
    assert_eq!(events, vec![KeyEvent::Press(0, 0)]);
    let events = d.events(&grid(1, 2, &[(0, 0), (0, 1)]));
    assert_eq!(events, vec![KeyEvent::Press(0, 1)]);
}
