use latency_agent::present::{present_mode, swap_chain_plan};

#[test]
fn plain_swap_chain() {
    let plan = swap_chain_plan(1280, 720, false);
    assert_eq!((plan.width, plan.height), (1280, 720));
    assert_eq!((plan.buffer_count, plan.max_frame_latency), (2, 1));
    assert_eq!((plan.device_flags, plan.swap_chain_flags), (0x1, 0x40));
}

#[test]
fn tearing_swap_chain() {
    let plan = swap_chain_plan(1, 2, true);
    assert_eq!((plan.width, plan.height), (1, 2));
    assert_eq!((plan.buffer_count, plan.max_frame_latency), (2, 1));
    assert_eq!((plan.device_flags, plan.swap_chain_flags), (0x21, 0x840));
}

#[test]
fn only_a_tearing_present_without_vsync_tears() {
    let mode = present_mode(true, false);
    assert_eq!((mode.sync_interval, mode.flags), (0, 0x200));
    for (tearing, vsync) in [(true, true), (false, true), (false, false)] {
        let mode = present_mode(tearing, vsync);
        assert_eq!((mode.sync_interval, mode.flags), (1, 0));
    }
}
