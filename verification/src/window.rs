//! The window: where it stands and what its messages ask for.
use vstd::prelude::*;

verus! {

/// A window of its own without a frame.
pub const STYLE_POPUP: u32 = 0x8000_0000;

/// A window that is shown when it is created.
pub const STYLE_VISIBLE: u32 = 0x1000_0000;

/// A window with a title bar.
pub const STYLE_CAPTION: u32 = 0x00C0_0000;

/// A window with a system menu.
pub const STYLE_SYSMENU: u32 = 0x0008_0000;

/// The size of the window when it does not cover the screen.
pub const WINDOWED_WIDTH: i32 = 1280;

pub const WINDOWED_HEIGHT: i32 = 720;

/// What is left free of the screen at least, in each direction.
pub const SPARE_WIDTH: i32 = 80;

pub const SPARE_HEIGHT: i32 = 120;

/// Where a window stands.
#[derive(Clone, Copy)]
pub struct Placement {
    pub style: u32,
    pub x: i32,
    pub y: i32,
    pub width: i32,
    pub height: i32,
    /// Whether the cursor is hidden while the window is open.
    pub hide_cursor: bool,
}

/// The smaller of two numbers.
pub open spec fn smaller(a: int, b: int) -> int {
    if a < b {
        a
    } else {
        b
    }
}

/// The window on a screen of the given size: the whole screen, or a framed
/// window in its middle.
pub open spec fn placed(w: i32, h: i32, fullscreen: bool) -> Placement {
    if fullscreen {
        Placement {
            style: STYLE_POPUP | STYLE_VISIBLE | STYLE_SYSMENU,
            x: 0,
            y: 0,
            width: w,
            height: h,
            hide_cursor: true,
        }
    } else {
        let width = smaller(WINDOWED_WIDTH as int, w - SPARE_WIDTH);
        let height = smaller(WINDOWED_HEIGHT as int, h - SPARE_HEIGHT);
        Placement {
            style: STYLE_CAPTION | STYLE_SYSMENU | STYLE_VISIBLE,
            x: ((w - width) / 2) as i32,
            y: ((h - height) / 2) as i32,
            width: width as i32,
            height: height as i32,
            hide_cursor: false,
        }
    }
}

/// The window on a screen of the given size.
pub fn placement(w: i32, h: i32, fullscreen: bool) -> (place: Placement)
    requires
        !fullscreen ==> i32::MIN <= w - SPARE_WIDTH && i32::MIN <= h - SPARE_HEIGHT,
    ensures
        place == placed(w, h, fullscreen),
{
    if fullscreen {
        Placement {
            style: STYLE_POPUP | STYLE_VISIBLE | STYLE_SYSMENU,
            x: 0,
            y: 0,
            width: w,
            height: h,
            hide_cursor: true,
        }
    } else {
        let width: i32 = if w - SPARE_WIDTH < WINDOWED_WIDTH {
            w - SPARE_WIDTH
        } else {
            WINDOWED_WIDTH
        };
        let height: i32 = if h - SPARE_HEIGHT < WINDOWED_HEIGHT {
            h - SPARE_HEIGHT
        } else {
            WINDOWED_HEIGHT
        };
        Placement {
            style: STYLE_CAPTION | STYLE_SYSMENU | STYLE_VISIBLE,
            x: (w - width) / 2,
            y: (h - height) / 2,
            width,
            height,
            hide_cursor: false,
        }
    }
}

/// A framed window stands in the middle of the screen, to the pixel, and
/// within it.
pub proof fn law_window_is_centred(w: i32, h: i32)
    requires
        i32::MIN <= w - SPARE_WIDTH,
        i32::MIN <= h - SPARE_HEIGHT,
    ensures
        ({
            let place = placed(w, h, false);
            &&& 0 <= w - (2 * place.x + place.width) <= 1
            &&& 0 <= h - (2 * place.y + place.height) <= 1
            &&& 0 < place.x && place.x + place.width < w
            &&& 0 < place.y && place.y + place.height < h
            &&& place.width <= WINDOWED_WIDTH && place.height <= WINDOWED_HEIGHT
        }),
{
}

/// A signed number in the unsigned type of the same width.
pub open spec fn reinterpreted(v: int) -> nat {
    (v % 0x1_0000_0000) as nat
}

fn reinterpret(v: i32) -> (u: u32)
    ensures
        u == reinterpreted(v as int),
{
    proof {
        if v < 0 {
            assert(v < 0 ==> (v as u32) == v + 0x1_0000_0000) by (bit_vector);
        }
    }
    v as u32
}

/// The edges of a client area.
#[derive(Clone, Copy)]
pub struct Edges {
    pub left: i32,
    pub top: i32,
    pub right: i32,
    pub bottom: i32,
}

/// The size of the client area to render to: the screen, or what the frame of
/// the window leaves.
pub fn client_size(w: i32, h: i32, edges: Edges, fullscreen: bool) -> (size: (u32, u32))
    requires
        !fullscreen ==> i32::MIN <= edges.right - edges.left <= i32::MAX,
        !fullscreen ==> i32::MIN <= edges.bottom - edges.top <= i32::MAX,
    ensures
        fullscreen ==> size.0 == reinterpreted(w as int) && size.1 == reinterpreted(h as int),
        !fullscreen ==> size.0 == reinterpreted(edges.right - edges.left) && size.1
            == reinterpreted(edges.bottom - edges.top),
{
    if fullscreen {
        (reinterpret(w), reinterpret(h))
    } else {
        (reinterpret(edges.right - edges.left), reinterpret(edges.bottom - edges.top))
    }
}

/// The message of a packet of raw input.
pub const MESSAGE_INPUT: u32 = 0x00FF;

/// The message of the left button going down.
pub const MESSAGE_LEFT_DOWN: u32 = 0x0201;

/// The message of a key going down.
pub const MESSAGE_KEY_DOWN: u32 = 0x0100;

/// The message of the window being destroyed.
pub const MESSAGE_DESTROY: u32 = 0x0002;

/// The message that ends the message loop.
pub const MESSAGE_QUIT: u32 = 0x0012;

/// The escape key.
pub const KEY_ESCAPE: u32 = 0x1B;

/// The usage page and the usage of a mouse.
pub const MOUSE_USAGE_PAGE: u16 = 0x01;

pub const MOUSE_USAGE: u16 = 0x02;

/// Raw input is delivered also while the window is in the background.
pub const INPUT_SINK: u32 = 0x100;

/// The device type of a mouse in a packet of raw input.
pub const DEVICE_MOUSE: u32 = 0;

/// The left button has gone down, in the buttons of a packet of raw input.
pub const BUTTON_LEFT_DOWN: u32 = 0x1;

/// What the window does with a message.
#[derive(Clone, Copy, PartialEq, Eq, Debug)]
pub enum MessageAction {
    /// Stamp the clock, then read the packet of raw input.
    ReadInput,
    /// Stamp the clock and register a press of the left button.
    Press,
    /// Stop the frame loop and end the message loop.
    Quit,
    /// End the message loop.
    EndMessages,
    /// Leave the message to the window system.
    Default,
}

/// What the window does with a message.
pub open spec fn reaction(message: nat, wparam: nat) -> MessageAction {
    if message == MESSAGE_INPUT {
        MessageAction::ReadInput
    } else if message == MESSAGE_LEFT_DOWN {
        MessageAction::Press
    } else if message == MESSAGE_KEY_DOWN && wparam % 0x1_0000_0000 == KEY_ESCAPE {
        MessageAction::Quit
    } else if message == MESSAGE_DESTROY {
        MessageAction::EndMessages
    } else {
        MessageAction::Default
    }
}

/// What the window does with a message.
pub fn message_action(message: u32, wparam: usize) -> (action: MessageAction)
    ensures
        action == reaction(message as nat, wparam as nat),
{
    if message == MESSAGE_INPUT {
        MessageAction::ReadInput
    } else if message == MESSAGE_LEFT_DOWN {
        MessageAction::Press
    } else if message == MESSAGE_KEY_DOWN && wparam as u64 % 0x1_0000_0000 == KEY_ESCAPE as u64 {
        MessageAction::Quit
    } else if message == MESSAGE_DESTROY {
        MessageAction::EndMessages
    } else {
        MessageAction::Default
    }
}

/// Whether a message taken from the queue ends the frame loop.
pub fn ends_loop(message: u32) -> (ends: bool)
    ensures
        ends <==> message == MESSAGE_QUIT,
        ends <==> message == 0x12,
{
    message == MESSAGE_QUIT
}

/// How many bytes to read of a packet of raw input that is announced with the
/// given size; nothing where there is nothing to read.
pub fn packet_buffer(size: u32) -> (bytes: Option<usize>)
    ensures
        bytes is None <==> size == 0,
        bytes is Some ==> bytes->0 == size,
{
    if size == 0 {
        None
    } else {
        Some(size as usize)
    }
}

/// Whether a packet of raw input was read.
pub fn packet_was_read(written: u32) -> (read: bool)
    ensures
        read <==> written != u32::MAX,
{
    written != u32::MAX
}

/// Whether a packet of raw input comes from a mouse, and so holds buttons.
pub fn is_mouse(device_type: u32) -> (mouse: bool)
    ensures
        mouse <==> device_type == DEVICE_MOUSE,
        mouse <==> device_type == 0,
{
    device_type == DEVICE_MOUSE
}

/// Whether a packet of raw input tells of a press of the left button.
pub open spec fn left_pressed(device_type: u32, buttons: u32) -> bool {
    device_type == DEVICE_MOUSE && buttons & BUTTON_LEFT_DOWN != 0
}

/// Whether a packet of raw input tells of a press of the left button.
pub fn is_left_press(device_type: u32, buttons: u32) -> (pressed: bool)
    ensures
        pressed == left_pressed(device_type, buttons),
{
    is_mouse(device_type) && buttons & BUTTON_LEFT_DOWN != 0
}

/// What came of a packet of raw input.
#[derive(Clone, Copy)]
pub enum Packet {
    /// It was announced with nothing in it.
    Empty,
    /// It could not be read.
    Unread,
    /// It was read; a device that is no mouse has no buttons.
    Read { device_type: u32, buttons: u32 },
}

/// What the window does with the message of a packet of raw input.
#[derive(Clone, Copy, PartialEq, Eq, Debug)]
pub enum PacketAction {
    /// Register a press of the left button; the message is then dealt with.
    Press,
    /// Nothing: the message is dealt with.
    Done,
    /// Leave the message to the window system.
    Default,
}

/// What the window does with the message of a packet of raw input.
pub open spec fn packet_reaction(packet: Packet) -> PacketAction {
    match packet {
        Packet::Empty => PacketAction::Done,
        Packet::Unread => PacketAction::Default,
        Packet::Read { device_type, buttons } => if left_pressed(device_type, buttons) {
            PacketAction::Press
        } else {
            PacketAction::Done
        },
    }
}

/// What the window does with the message of a packet of raw input.
pub fn packet_action(packet: Packet) -> (action: PacketAction)
    ensures
        action == packet_reaction(packet),
{
    match packet {
        Packet::Empty => PacketAction::Done,
        Packet::Unread => PacketAction::Default,
        Packet::Read { device_type, buttons } => if is_left_press(device_type, buttons) {
            PacketAction::Press
        } else {
            PacketAction::Done
        },
    }
}

/// A packet of raw input is a press if and only if it comes from a mouse and its
/// buttons are an odd number: the left button going down is the lowest bit.
pub proof fn law_press_is_lowest_bit(device_type: u32, buttons: u32)
    ensures
        left_pressed(device_type, buttons) <==> device_type == 0 && buttons % 2 == 1,
{
    assert(buttons & 1 == buttons % 2) by (bit_vector);
}

/// Of the packets of raw input, only one that could be read, from a mouse whose
/// left button went down, is a press; only one that could not be read is left to
/// the window system.
pub proof fn law_packets_and_what_they_do(packet: Packet)
    ensures
        packet_reaction(packet) is Press <==> packet is Read && packet->device_type == 0
            && packet->buttons % 2 == 1,
        packet_reaction(packet) is Default <==> packet is Unread,
{
    if packet is Read {
        law_press_is_lowest_bit(packet->device_type, packet->buttons);
    }
}

/// Raw input is read, the left button going down is a press, the escape key quits
/// whatever the upper half of a wide parameter holds, and the end of the window
/// ends the messages; every other message is left to the window system.
pub proof fn law_messages_and_what_they_do(message: nat, wparam: nat)
    ensures
        reaction(message, wparam) is ReadInput <==> message == 0xFF,
        reaction(message, wparam) is Press <==> message == 0x201,
        reaction(message, wparam) is Quit <==> message == 0x100 && wparam % 0x1_0000_0000 == 27,
        reaction(message, wparam) is EndMessages <==> message == 2,
{
}

/// The whole screen is covered without a frame and without a cursor; otherwise the
/// window has a title bar and is as large as the screen leaves room for, up to a
/// fixed size.
pub proof fn law_window_fits_its_mode(w: i32, h: i32)
    ensures
        ({
            let place = placed(w, h, true);
            &&& place.x == 0 && place.y == 0 && place.width == w && place.height == h
            &&& place.style == 0x9008_0000 && place.hide_cursor
        }),
        i32::MIN + 80 <= w && i32::MIN + 120 <= h ==> ({
            let place = placed(w, h, false);
            &&& place.width <= 1280 && place.width <= w - 80
            &&& place.width == 1280 || place.width == w - 80
            &&& place.height <= 720 && place.height <= h - 120
            &&& place.height == 720 || place.height == h - 120
            &&& w - place.width - 1 <= 2 * place.x <= w - place.width
            &&& h - place.height - 1 <= 2 * place.y <= h - place.height
            &&& place.style == 0x10C8_0000 && !place.hide_cursor
        }),
{
    assert(0x8000_0000u32 | 0x1000_0000u32 | 0x0008_0000u32 == 0x9008_0000u32) by (bit_vector);
    assert(0x00C0_0000u32 | 0x0008_0000u32 | 0x1000_0000u32 == 0x10C8_0000u32) by (bit_vector);
}

/// A size that is taken for an unsigned number stays the same modulo the width of
/// the number.
pub proof fn law_size_is_kept(v: int)
    ensures
        0 <= reinterpreted(v) < 0x1_0000_0000,
        (reinterpreted(v) - v) % 0x1_0000_0000 == 0,
        0 <= v < 0x1_0000_0000 ==> reinterpreted(v) == v,
{
}

/// Raw input is asked for from mice, and also while the window is in the
/// background.
pub proof fn law_raw_input_is_of_mice()
    ensures
        MOUSE_USAGE_PAGE == 1 && MOUSE_USAGE == 2,
        INPUT_SINK == 0x100,
{
}

} // verus!
