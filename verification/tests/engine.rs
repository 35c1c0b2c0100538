use split_kb_core::event::KeyEvent;
use split_kb_core::layout::{Action, ConfigError, HoldTapAction, InterruptPolicy, Layout};

const KC_A: u8 = 4;
const KC_B: u8 = 5;
const KC_1: u8 = 30;
const KC_SPACE: u8 = 44;
const KC_LCTRL: u8 = 224;

fn key(k: u8) -> Action {
    Action::Key(k)
}

fn hold_tap(hold: Action, tap: Action, timeout: u16, policy: InterruptPolicy) -> Action {
    Action::HoldTap(Box::new(HoldTapAction { hold, tap, timeout, policy }))
}

/// Base layer: a hold-tap at (0,0) and a plain key at (0,1).
fn hold_tap_board(hold: Action) -> Layout {
    let base = vec![vec![
        hold_tap(hold, key(KC_SPACE), 5, InterruptPolicy::HoldOnOtherPress),
        key(KC_B),
    ]];
    Layout::new(vec![base], 1, 2).unwrap()
}

#[test]
fn tap_within_timeout_yields_tap() {
    let mut board = hold_tap_board(key(KC_LCTRL));
    board.apply(KeyEvent::Press(0, 0));
    for _ in 0..3 {
        let (keys, signal) = board.tick();
        assert!(keys.is_empty());
        assert_eq!(signal, None);
    }
    board.apply(KeyEvent::Release(0, 0));
    let (keys, _) = board.tick();
    assert_eq!(keys, vec![KC_SPACE]);
    let (keys, _) = board.tick();
    assert!(keys.is_empty());
}

#[test]
fn immediate_tap_yields_tap() {
    let mut board = hold_tap_board(key(KC_LCTRL));
    board.apply(KeyEvent::Press(0, 0));
    board.apply(KeyEvent::Release(0, 0));
    let (keys, _) = board.tick();
    assert_eq!(keys, vec![KC_SPACE]);
}

#[test]
fn hold_past_timeout_yields_hold() {
    let mut board = hold_tap_board(key(KC_LCTRL));
    board.apply(KeyEvent::Press(0, 0));
    for _ in 0..4 {
        let (keys, _) = board.tick();
        assert!(keys.is_empty());
    }
    // the fifth tick crosses the timeout
    let (keys, _) = board.tick();
    assert_eq!(keys, vec![KC_LCTRL]);
    let (keys, _) = board.tick();
    assert_eq!(keys, vec![KC_LCTRL]);
    board.apply(KeyEvent::Release(0, 0));
    let (keys, _) = board.tick();
    assert!(keys.is_empty());
}

#[test]
fn interrupting_press_resolves_hold() {
    let mut board = hold_tap_board(key(KC_LCTRL));
    board.apply(KeyEvent::Press(0, 0));
    let (keys, _) = board.tick();
    assert!(keys.is_empty());
    board.apply(KeyEvent::Press(0, 1));
    let (keys, _) = board.tick();
    assert_eq!(keys, vec![KC_LCTRL, KC_B]);
    board.apply(KeyEvent::Release(0, 0));
    let (keys, _) = board.tick();
    assert_eq!(keys, vec![KC_B]);
    board.apply(KeyEvent::Release(0, 1));
    let (keys, _) = board.tick();
    assert!(keys.is_empty());
}

#[test]
fn timeout_only_policy_ignores_interrupt() {
    let base = vec![vec![
        hold_tap(key(KC_LCTRL), key(KC_SPACE), 5, InterruptPolicy::TimeoutOnly),
        key(KC_B),
    ]];
    let mut board = Layout::new(vec![base], 1, 2).unwrap();
    board.apply(KeyEvent::Press(0, 0));
    board.apply(KeyEvent::Press(0, 1));
    let (keys, _) = board.tick();
    assert_eq!(keys, vec![KC_B]);
    board.apply(KeyEvent::Release(0, 0));
    let (keys, _) = board.tick();
    assert_eq!(keys, vec![KC_B, KC_SPACE]);
}

#[test]
fn hold_tap_with_layer_hold() {
    // holding past the timeout activates layer 1; layer 1 rebinds (0,1)
    let base = vec![
        vec![
            hold_tap(Action::Layer(1), key(KC_SPACE), 3, InterruptPolicy::HoldOnOtherPress),
            key(KC_B),
        ],
    ];
    let overlay = vec![vec![Action::Trans, key(KC_1)]];
    let mut board = Layout::new(vec![base, overlay], 1, 2).unwrap();
    board.apply(KeyEvent::Press(0, 0));
    for _ in 0..3 {
        board.tick();
    }
    board.apply(KeyEvent::Press(0, 1));
    let (keys, _) = board.tick();
    assert_eq!(keys, vec![KC_1]);
    board.apply(KeyEvent::Release(0, 0));
    let (keys, _) = board.tick();
    assert_eq!(keys, vec![KC_B]);
}

#[test]
fn layer_priority_most_recent_wins() {
    let base = vec![vec![key(KC_A), Action::Layer(1)]];
    let overlay = vec![vec![key(KC_B), Action::Trans]];
    let mut board = Layout::new(vec![base, overlay], 1, 2).unwrap();
    board.apply(KeyEvent::Press(0, 1));
    board.apply(KeyEvent::Press(0, 0));
    let (keys, _) = board.tick();
    assert_eq!(keys, vec![KC_B]);
    board.apply(KeyEvent::Release(0, 0));
    board.apply(KeyEvent::Release(0, 1));
    board.apply(KeyEvent::Press(0, 0));
    let (keys, _) = board.tick();
    assert_eq!(keys, vec![KC_A]);
}

#[test]
fn transparent_cell_falls_back_to_base() {
    let base = vec![vec![key(KC_A), Action::Layer(1)]];
    let overlay = vec![vec![Action::Trans, Action::Trans]];
    let mut board = Layout::new(vec![base, overlay], 1, 2).unwrap();
    board.apply(KeyEvent::Press(0, 1));
    board.apply(KeyEvent::Press(0, 0));
    let (keys, _) = board.tick();
    assert_eq!(keys, vec![KC_A]);
}

#[test]
fn end_to_end_layer_scenario() {
    // base: Layer(1) held at (3,4), Key(A) at (0,0); layer 1: Key(1) at (0,0)
    let mut base = Vec::new();
    for _ in 0..4 {
        let mut row = Vec::new();
        for _ in 0..5 {
            row.push(Action::NoOp);
        }
        base.push(row);
    }
    base[0][0] = key(KC_A);
    base[3][4] = Action::Layer(1);
    let mut overlay = Vec::new();
    for _ in 0..4 {
        let mut row = Vec::new();
        for _ in 0..5 {
            row.push(Action::Trans);
        }
        overlay.push(row);
    }
    overlay[0][0] = key(KC_1);
    let mut board = Layout::new(vec![base, overlay], 4, 5).unwrap();
    board.apply(KeyEvent::Press(3, 4));
    board.apply(KeyEvent::Press(0, 0));
    let (keys, _) = board.tick();
    assert_eq!(keys, vec![KC_1]);
    board.apply(KeyEvent::Release(0, 0));
    board.apply(KeyEvent::Release(3, 4));
    board.apply(KeyEvent::Press(0, 0));
    let (keys, _) = board.tick();
    assert_eq!(keys, vec![KC_A]);
}

#[test]
fn custom_action_signals() {
    let base = vec![vec![Action::Custom(7), key(KC_A)]];
    let mut board = Layout::new(vec![base], 1, 2).unwrap();
    board.apply(KeyEvent::Press(0, 0));
    let (keys, signal) = board.tick();
    assert!(keys.is_empty());
    assert_eq!(signal, Some(7));
    board.apply(KeyEvent::Release(0, 0));
    let (_, signal) = board.tick();
    assert_eq!(signal, None);
}

#[test]
fn out_of_range_and_repeated_events_are_ignored() {
    let base = vec![vec![key(KC_A), key(KC_B)]];
    let mut board = Layout::new(vec![base], 1, 2).unwrap();
    board.apply(KeyEvent::Press(9, 9));
    board.apply(KeyEvent::Release(0, 0));
    board.apply(KeyEvent::Press(0, 0));
    board.apply(KeyEvent::Press(0, 0));
    let (keys, _) = board.tick();
    assert_eq!(keys, vec![KC_A]);
    board.apply(KeyEvent::Release(0, 0));
    let (keys, _) = board.tick();
    assert!(keys.is_empty());
}

#[test]
fn rejects_bad_shape() {
    let base = vec![vec![key(KC_A)], vec![key(KC_B)]];
    assert_eq!(Layout::new(vec![base], 1, 2).err(), Some(ConfigError::BadShape));
    assert_eq!(Layout::new(Vec::new(), 1, 2).err(), Some(ConfigError::BadShape));
}

#[test]
fn rejects_transparent_base() {
    let base = vec![vec![key(KC_A), Action::Trans]];
    assert_eq!(Layout::new(vec![base], 1, 2).err(), Some(ConfigError::TransparentBase));
}

#[test]
fn rejects_invalid_actions() {
    let base = vec![vec![key(KC_A), Action::Layer(7)]];
    assert_eq!(Layout::new(vec![base], 1, 2).err(), Some(ConfigError::InvalidAction));
    let base = vec![vec![
        key(KC_A),
        hold_tap(key(KC_B), key(KC_A), 0, InterruptPolicy::HoldOnOtherPress),
    ]];
    assert_eq!(Layout::new(vec![base], 1, 2).err(), Some(ConfigError::InvalidAction));
}
