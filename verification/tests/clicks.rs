use latency_agent::clicks::{register_click, Clicks};

const FREQ: u64 = 10_000_000;
const DEBOUNCE: u64 = 1_500_000;

fn count_of(presses: &[u64]) -> u32 {
    let mut clicks = Clicks::new();
    for &now in presses {
        register_click(&mut clicks, now, FREQ);
    }
    clicks.count
}

#[test]
fn first_press_is_a_click() {
    let mut clicks = Clicks::new();
    assert_eq!(register_click(&mut clicks, 5, FREQ), Some("0,5,0\n".to_string()));
    assert_eq!((clicks.last, clicks.pending, clicks.count), (5, true, 1));
}

#[test]
fn press_within_the_debounce_time_is_no_click() {
    let mut clicks = Clicks::new();
    register_click(&mut clicks, 1_000, FREQ);
    assert!(clicks.take_pending());
    assert_eq!(register_click(&mut clicks, 1_000 + DEBOUNCE - 1, FREQ), None);
    assert_eq!((clicks.last, clicks.pending, clicks.count), (1_000 + DEBOUNCE - 1, false, 1));
}

#[test]
fn press_at_the_debounce_time_is_a_click() {
    let mut clicks = Clicks::new();
    register_click(&mut clicks, 1_000, FREQ);
    let line = register_click(&mut clicks, 1_000 + DEBOUNCE, FREQ);
    assert_eq!(line, Some("1,1501000,150\n".to_string()));
    assert_eq!(clicks.count, 2);
}

#[test]
fn every_press_restarts_the_debounce_time() {
    let step = DEBOUNCE - 1;
    let burst: Vec<u64> = (1..10).map(|k| k * step).collect();
    assert_eq!(count_of(&burst), 1);
    let apart: Vec<u64> = (1..10).map(|k| k * DEBOUNCE).collect();
    assert_eq!(count_of(&apart), 9);
}

#[test]
fn a_press_reported_twice_is_one_click() {
    assert_eq!(count_of(&[70_000, 70_900, 9_070_000, 9_070_000]), 2);
}

#[test]
fn pending_click_is_taken_once() {
    let mut clicks = Clicks::new();
    assert!(!clicks.take_pending());
    register_click(&mut clicks, 1, FREQ);
    assert!(clicks.take_pending());
    assert!(!clicks.take_pending());
    assert_eq!((clicks.last, clicks.count), (1, 1));
}

#[test]
fn click_numbers_wrap() {
    let mut clicks = Clicks { last: 0, pending: false, count: u32::MAX };
    assert_eq!(register_click(&mut clicks, 10_000, FREQ), Some("4294967295,10000,1\n".to_string()));
    assert_eq!(clicks.count, 0);
}

#[test]
fn a_press_at_counter_zero_is_forgotten() {
    assert_eq!(count_of(&[0, 1]), 2);
}

#[test]
fn clicks_are_numbered_without_gaps() {
    let mut clicks = Clicks::new();
    let mut rows = Vec::new();
    for &now in &[10_000, 20_000, 2_000_000, 2_000_001, 2_000_002, 9_000_000] {
        rows.extend(register_click(&mut clicks, now, FREQ));
    }
    assert_eq!(rows, vec!["0,10000,1\n", "1,2000000,200\n", "2,9000000,900\n"]);
}
