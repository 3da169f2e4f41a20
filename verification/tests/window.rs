use latency_agent::window::{
    client_size, ends_loop, is_left_press, is_mouse, message_action, packet_action, packet_buffer,
    packet_was_read, placement, Edges, MessageAction, Packet, PacketAction,
};

#[test]
fn fullscreen_window_covers_the_screen() {
    let place = placement(1920, 1080, true);
    assert_eq!((place.x, place.y, place.width, place.height), (0, 0, 1920, 1080));
    assert_eq!(place.style, 0x9008_0000);
    assert!(place.hide_cursor);
}

#[test]
fn framed_window_is_centred() {
    let place = placement(1920, 1080, false);
    assert_eq!((place.x, place.y, place.width, place.height), (320, 180, 1280, 720));
    assert_eq!(place.style, 0x10C8_0000);
    assert!(!place.hide_cursor);
}

#[test]
fn framed_window_leaves_some_of_a_small_screen() {
    let place = placement(1024, 768, false);
    assert_eq!((place.x, place.y, place.width, place.height), (40, 60, 944, 648));
    let place = placement(1361, 841, false);
    assert_eq!((place.x, place.y, place.width, place.height), (40, 60, 1280, 720));
}

#[test]
fn client_area_of_the_mode() {
    let edges = Edges { left: 1, top: 2, right: 1265, bottom: 683 };
    assert_eq!(client_size(1920, 1080, edges, false), (1264, 681));
    assert_eq!(client_size(1920, 1080, edges, true), (1920, 1080));
    let edges = Edges { left: 1, top: 0, right: 0, bottom: 0 };
    assert_eq!(client_size(-1, 0, edges, false), (u32::MAX, 0));
    assert_eq!(client_size(-2, i32::MIN, edges, true), (u32::MAX - 1, 0x8000_0000));
}

#[test]
fn messages_and_what_they_do() {
    assert_eq!(message_action(0x00FF, 0), MessageAction::ReadInput);
    assert_eq!(message_action(0x0201, 7), MessageAction::Press);
    assert_eq!(message_action(0x0100, 0x1B), MessageAction::Quit);
    assert_eq!(message_action(0x0100, 0x20), MessageAction::Default);
    assert_eq!(message_action(0x0101, 0x1B), MessageAction::Default);
    assert_eq!(message_action(0x0002, 0), MessageAction::EndMessages);
    assert_eq!(message_action(0x0012, 0), MessageAction::Default);
    assert_eq!(message_action(0x0100, 0x1_0000_001B), MessageAction::Quit);
    assert!(ends_loop(0x0012));
    assert!(!ends_loop(0x0002));
}

#[test]
fn packets_of_raw_input() {
    assert_eq!(packet_buffer(0), None);
    assert_eq!(packet_buffer(48), Some(48));
    assert!(packet_was_read(48));
    assert!(packet_was_read(0));
    assert!(!packet_was_read(u32::MAX));
    assert_eq!(packet_action(Packet::Empty), PacketAction::Done);
    assert_eq!(packet_action(Packet::Unread), PacketAction::Default);
    let press = Packet::Read { device_type: 0, buttons: 0x1 };
    assert_eq!(packet_action(press), PacketAction::Press);
    let release = Packet::Read { device_type: 0, buttons: 0x2 };
    assert_eq!(packet_action(release), PacketAction::Done);
    let keyboard = Packet::Read { device_type: 1, buttons: 0x1 };
    assert_eq!(packet_action(keyboard), PacketAction::Done);
}

#[test]
fn only_the_left_button_going_down_is_a_press() {
    assert!(is_left_press(0, 0x1));
    assert!(is_left_press(0, 0x5));
    assert!(!is_left_press(0, 0x2));
    assert!(!is_left_press(0, 0x4));
    assert!(!is_left_press(0, 0));
    assert!(!is_left_press(1, 0x1));
    assert!(is_mouse(0));
    assert!(!is_mouse(1));
    assert!(!is_mouse(2));
}
