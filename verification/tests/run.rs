use latency_agent::clicks::{register_click, Clicks};
use latency_agent::frames::FrameLoop;
use latency_agent::options::parse_options;

const FREQ: u64 = 1_000_000;

/// Which frames are lit and what is logged of the clicks, where each entry holds
/// the presses before one frame.
fn run(presses: &[&[u64]]) -> (Vec<usize>, Vec<String>) {
    let options = parse_options(&vec![]);
    let mut clicks = Clicks::new();
    let mut frames = FrameLoop::new();
    let mut lit = Vec::new();
    let mut lines = Vec::new();
    for (i, before) in presses.iter().enumerate() {
        for &now in before.iter() {
            lines.extend(register_click(&mut clicks, now, FREQ));
        }
        let plan = frames.poll(false, &mut clicks, &options).unwrap();
        if plan.flash_active {
            lit.push(i);
        }
        frames.presented(plan.flash_active, 0, None, &clicks, &options);
    }
    (lit, lines)
}

#[test]
fn clicks_light_the_frames_after_them() {
    let (lit, lines) = run(&[
        &[],
        &[10_000, 10_500],
        &[],
        &[100_000],
        &[],
        &[],
        &[200_000],
        &[350_000, 351_000],
        &[],
        &[],
        &[],
        &[],
    ]);
    assert_eq!(lit, vec![1, 2, 3, 4, 7, 8, 9, 10]);
    assert_eq!(lines, vec!["0,10000,10\n", "1,350000,350\n"]);
}

#[test]
fn frames_between_presses_change_nothing_for_the_clicks() {
    let presses = [7u64, 150_006, 300_006, 300_007, 460_000, 700_000, 849_999, 850_000, 1_000_000];
    let (_, at_once) = run(&[&presses]);
    let one_by_one: Vec<&[u64]> = presses.chunks(1).collect();
    let (_, apart) = run(&one_by_one);
    let in_threes: Vec<&[u64]> = presses.chunks(3).collect();
    let (_, grouped) = run(&in_threes);
    assert_eq!(at_once.len(), 5);
    assert_eq!(at_once, apart);
    assert_eq!(at_once, grouped);
}
