use latency_agent::barcode::barcode;
use latency_agent::clicks::{register_click, Clicks};
use latency_agent::frames::{title, FrameLoop};
use latency_agent::log::FrameStats;
use latency_agent::options::{parse_options, Options};

fn windowed() -> Options {
    parse_options(&vec![])
}

fn lit_frames(click_before: &[usize], frames: usize) -> Vec<usize> {
    let options = windowed();
    let mut clicks = Clicks::new();
    let mut frame_loop = FrameLoop::new();
    let mut lit = Vec::new();
    for i in 0..frames {
        if click_before.contains(&i) {
            clicks.pending = true;
        }
        let plan = frame_loop.poll(false, &mut clicks, &options).unwrap();
        if plan.flash_active {
            lit.push(i);
        }
        frame_loop.presented(plan.flash_active, 0, None, &clicks, &options);
    }
    lit
}

#[test]
fn a_flash_is_held_for_four_frames() {
    assert_eq!(lit_frames(&[], 8), Vec::<usize>::new());
    assert_eq!(lit_frames(&[0], 8), vec![0, 1, 2, 3]);
    assert_eq!(lit_frames(&[3], 10), vec![3, 4, 5, 6]);
}

#[test]
fn a_click_during_a_flash_restarts_it() {
    assert_eq!(lit_frames(&[1, 3], 10), vec![1, 2, 3, 4, 5, 6]);
    assert_eq!(lit_frames(&[1, 5], 10), vec![1, 2, 3, 4, 5, 6, 7, 8]);
}

#[test]
fn the_plan_of_a_frame() {
    let options = windowed();
    let mut clicks = Clicks::new();
    register_click(&mut clicks, 1, 10_000_000);
    let mut frame_loop = FrameLoop { present_index: 0x1_0003, flash_frames_left: 0 };
    let plan = frame_loop.poll(false, &mut clicks, &options).unwrap();
    assert_eq!(plan.wait_ms, 1000);
    assert!(plan.flash_active);
    assert_eq!(plan.gray_code, barcode(3));
    assert_eq!((plan.mode.sync_interval, plan.mode.flags), (1, 0));
    assert!(!clicks.pending);
    let tearing = parse_options(&vec!["--tearing".to_string()]);
    let plan = frame_loop.poll(false, &mut clicks, &tearing).unwrap();
    assert_eq!((plan.mode.sync_interval, plan.mode.flags), (0, 0x200));
}

#[test]
fn quitting_leaves_a_click_waiting() {
    let options = windowed();
    let mut clicks = Clicks { last: 1, pending: true, count: 1 };
    let mut frame_loop = FrameLoop::new();
    assert!(frame_loop.poll(true, &mut clicks, &options).is_none());
    assert!(clicks.pending);
    assert_eq!((frame_loop.present_index, frame_loop.flash_frames_left), (0, 0));
}

#[test]
fn every_present_is_recorded() {
    let options = windowed();
    let clicks = Clicks::new();
    let mut frame_loop = FrameLoop::new();
    let stats = FrameStats { present_count: 1, sync_qpc_time: 20, present_refresh_count: 3 };
    let report = frame_loop.presented(false, 10, Some(stats), &clicks, &options);
    assert_eq!(report.row, "0,10,1,20,3\n");
    let nothing = FrameStats { present_count: 0, sync_qpc_time: 20, present_refresh_count: 3 };
    assert_eq!(frame_loop.presented(false, 11, Some(nothing), &clicks, &options).row, "1,11,0,20,3\n");
    assert_eq!(frame_loop.presented(false, 12, None, &clicks, &options).row, "2,12,,,\n");
    let report = frame_loop.presented(false, 13, Some(stats), &clicks, &options);
    assert_eq!(report.row, "3,13,1,20,3\n");
}

#[test]
fn the_frame_log_has_no_gaps() {
    let options = windowed();
    let mut clicks = Clicks::new();
    let mut frame_loop = FrameLoop::new();
    for i in 0..1000u64 {
        clicks.pending = i % 7 == 0;
        let plan = frame_loop.poll(false, &mut clicks, &options).unwrap();
        let stats = if i % 3 == 0 {
            None
        } else {
            Some(FrameStats {
                present_count: (i % 2) as u32,
                sync_qpc_time: -1,
                present_refresh_count: 0,
            })
        };
        let row = frame_loop.presented(plan.flash_active, 5 * i, stats, &clicks, &options).row;
        let fields: Vec<&str> = row.trim_end().split(',').collect();
        assert_eq!(fields.len(), 5);
        assert_eq!(fields[0], i.to_string());
        assert_eq!(fields[1], (5 * i).to_string());
        assert_eq!(plan.gray_code, barcode(fields[0].parse().unwrap()));
    }
}

#[test]
fn the_title_is_renewed_every_fifteen_frames() {
    let options = windowed();
    let clicks = Clicks { last: 9, pending: false, count: 2 };
    let mut frame_loop = FrameLoop::new();
    for i in 1..=45u32 {
        let report = frame_loop.presented(i == 30, 0, None, &clicks, &options);
        let expected = match i {
            15 => Some("latency-agent [windowed]  clicks=2  frame=15".to_string()),
            30 => Some("latency-agent [windowed]  clicks=2  frame=30  FLASH".to_string()),
            45 => Some("latency-agent [windowed]  clicks=2  frame=45".to_string()),
            _ => None,
        };
        assert_eq!(report.title, expected);
    }
    assert_eq!(title(true, 0, 0, false), "latency-agent [fullscreen]  clicks=0  frame=0");
}

#[test]
fn the_frame_index_wraps() {
    let options = windowed();
    let clicks = Clicks::new();
    let mut frame_loop = FrameLoop { present_index: u32::MAX, flash_frames_left: 2 };
    let report = frame_loop.presented(true, 0, None, &clicks, &options);
    assert_eq!((frame_loop.present_index, frame_loop.flash_frames_left), (0, 1));
    assert_eq!(report.title, Some("latency-agent [windowed]  clicks=0  frame=0  FLASH".to_string()));
}

#[test]
fn a_press_that_is_no_click_lights_nothing() {
    let options = windowed();
    let mut clicks = Clicks::new();
    let mut frame_loop = FrameLoop::new();
    register_click(&mut clicks, 100, 10_000_000);
    for _ in 0..5 {
        let plan = frame_loop.poll(false, &mut clicks, &options).unwrap();
        frame_loop.presented(plan.flash_active, 0, None, &clicks, &options);
    }
    register_click(&mut clicks, 200, 10_000_000);
    assert!(!frame_loop.poll(false, &mut clicks, &options).unwrap().flash_active);
    register_click(&mut clicks, 1_500_200, 10_000_000);
    assert!(frame_loop.poll(false, &mut clicks, &options).unwrap().flash_active);
}
