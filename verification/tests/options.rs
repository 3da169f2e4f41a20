use latency_agent::options::{client_area_line, farewell, fatal_message, mode_name, parse_options};

fn args(list: &[&str]) -> Vec<String> {
    list.iter().map(|s| s.to_string()).collect()
}

#[test]
fn no_arguments_no_options() {
    let options = parse_options(&args(&["latency-agent"]));
    assert!(!options.tearing && !options.fullscreen && !options.selftest);
    assert!(options.vsync());
}

#[test]
fn options_are_found_anywhere() {
    let options = parse_options(&args(&["latency-agent", "extra", "--fullscreen", "--tearing"]));
    assert!(options.tearing && options.fullscreen && !options.selftest);
    assert!(!options.vsync());
    assert!(parse_options(&args(&["--selftest"])).selftest);
}

#[test]
fn near_misses_are_not_options() {
    let options = parse_options(&args(&["a", "--tearing=1", "-tearing", "--Fullscreen", "selftest", ""]));
    assert!(!options.tearing && !options.fullscreen && !options.selftest);
    let options = parse_options(&args(&[]));
    assert!(!options.tearing && !options.fullscreen && !options.selftest);
}

#[test]
fn run_messages() {
    let options = parse_options(&args(&["a", "--tearing"]));
    assert_eq!(
        options.banner(1920, -1080),
        "latency-agent: screen 1920x-1080, mode=windowed, tearing=true, vsync=false"
    );
    let options = parse_options(&args(&["a", "--fullscreen"]));
    assert_eq!(
        options.banner(2560, 1440),
        "latency-agent: screen 2560x1440, mode=fullscreen, tearing=false, vsync=true"
    );
    assert_eq!(mode_name(true), "fullscreen");
    assert_eq!(mode_name(false), "windowed");
    assert_eq!(client_area_line(1264, 681), "client area: 1264x681");
    assert_eq!(farewell(12, 3456), "done. 12 clicks logged, 3456 frames logged.");
    assert_eq!(fatal_message("no device"), "latency-agent fatal error:\nno device");
}
