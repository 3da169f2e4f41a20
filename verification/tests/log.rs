use latency_agent::log::{clicks_header, frames_header, log_click, log_frame, log_present, FrameStats};

#[test]
fn headers_name_the_columns() {
    assert_eq!(clicks_header(), "seq,qpc,ms_epoch\n");
    assert_eq!(
        frames_header(),
        "own_index,qpc_t_present,dxgi_present_count,sync_qpc_time,present_refresh_count\n"
    );
}

#[test]
fn click_rows_hold_number_counter_and_milliseconds() {
    assert_eq!(log_click(12_345_678, 7, 10_000_000), "7,12345678,1234\n");
    assert_eq!(log_click(0, 0, 10_000_000), "0,0,0\n");
    assert_eq!(log_click(u64::MAX, u32::MAX, 1), format!("{},{},{}\n", u32::MAX, u64::MAX, u64::MAX));
}

#[test]
fn frame_rows_hold_index_time_and_statistics() {
    let stats = FrameStats { present_count: 12, sync_qpc_time: -34, present_refresh_count: 56 };
    assert_eq!(log_frame(3, 99, &stats), "3,99,12,-34,56\n");
    let stats = FrameStats { present_count: u32::MAX, sync_qpc_time: i64::MAX, present_refresh_count: 0 };
    assert_eq!(log_frame(0, 0, &stats), format!("0,0,{},{},0\n", u32::MAX, i64::MAX));
}

#[test]
fn different_clicks_have_different_rows() {
    assert_ne!(log_click(11, 1, 1000), log_click(1, 11, 1000));
    assert_ne!(log_click(11, 1, 1000), log_click(11, 1, 100));
}

#[test]
fn frames_without_statistics_have_empty_columns() {
    assert_eq!(log_present(7, 8, None), "7,8,,,\n");
    let stats = FrameStats { present_count: 0, sync_qpc_time: 0, present_refresh_count: 0 };
    assert_eq!(log_present(7, 8, Some(stats)), "7,8,0,0,0\n");
    assert_eq!(log_present(7, 8, Some(stats)), log_frame(7, 8, &stats));
}
