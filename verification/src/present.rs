//! How frames get to the screen.
use crate::options::Options;
use vstd::prelude::*;

verus! {

/// The device is used from one thread.
pub const DEVICE_SINGLETHREADED: u32 = 0x1;

/// What the device is asked for in addition when frames may tear.
pub const DEVICE_TEARING: u32 = 0x20;

/// The swap chain signals a waitable object when it can take a frame.
pub const SWAP_CHAIN_WAITABLE: u32 = 0x40;

/// Presents on the swap chain may tear.
pub const SWAP_CHAIN_TEARING: u32 = 0x800;

/// This present may tear.
pub const PRESENT_TEARING: u32 = 0x200;

/// The device and the swap chain to create.
#[derive(Clone, Copy)]
pub struct SwapChainPlan {
    pub width: u32,
    pub height: u32,
    /// How many back buffers rotate.
    pub buffer_count: u32,
    /// How many frames may be queued.
    pub max_frame_latency: u32,
    pub device_flags: u32,
    pub swap_chain_flags: u32,
}

/// How a frame is presented.
#[derive(Clone, Copy)]
pub struct PresentMode {
    /// How many vertical blanks to wait for.
    pub sync_interval: u32,
    pub flags: u32,
}

/// The shortest queue there is: two buffers in turn, one frame in flight, and an
/// object to wait on. Tearing has to be asked for on creation.
pub open spec fn shortest_queue(width: u32, height: u32, allow_tearing: bool) -> SwapChainPlan {
    SwapChainPlan {
        width,
        height,
        buffer_count: 2,
        max_frame_latency: 1,
        device_flags: if allow_tearing {
            DEVICE_SINGLETHREADED | DEVICE_TEARING
        } else {
            DEVICE_SINGLETHREADED
        },
        swap_chain_flags: if allow_tearing {
            SWAP_CHAIN_WAITABLE | SWAP_CHAIN_TEARING
        } else {
            SWAP_CHAIN_WAITABLE
        },
    }
}

/// The device and the swap chain for a client area of the given size.
pub fn swap_chain_plan(width: u32, height: u32, allow_tearing: bool) -> (plan: SwapChainPlan)
    ensures
        plan == shortest_queue(width, height, allow_tearing),
{
    let mut device_flags: u32 = DEVICE_SINGLETHREADED;
    let mut swap_chain_flags: u32 = SWAP_CHAIN_WAITABLE;
    if allow_tearing {
        device_flags = device_flags | DEVICE_TEARING;
        swap_chain_flags = swap_chain_flags | SWAP_CHAIN_TEARING;
    }
    SwapChainPlan {
        width,
        height,
        buffer_count: 2,
        max_frame_latency: 1,
        device_flags,
        swap_chain_flags,
    }
}

/// A present that may tear waits for nothing; every other waits for one
/// vertical blank.
pub open spec fn presented_as(tearing: bool, vsync: bool) -> PresentMode {
    if tearing && !vsync {
        PresentMode { sync_interval: 0, flags: PRESENT_TEARING }
    } else {
        PresentMode { sync_interval: 1, flags: 0 }
    }
}

/// How a frame is presented on a swap chain that allows tearing or does not.
pub fn present_mode(tearing: bool, vsync: bool) -> (mode: PresentMode)
    ensures
        mode == presented_as(tearing, vsync),
{
    if tearing && !vsync {
        PresentMode { sync_interval: 0, flags: PRESENT_TEARING }
    } else {
        PresentMode { sync_interval: 1, flags: 0 }
    }
}

/// A run with tearing never waits for the vertical blank, and only such a run
/// tears; the swap chain was created for it.
pub proof fn law_tearing_runs_tear(options: Options, width: u32, height: u32)
    ensures
        ({
            let mode = presented_as(options.tearing, options.waits_for_vsync());
            let plan = shortest_queue(width, height, options.tearing);
            &&& options.tearing <==> mode.sync_interval == 0
            &&& options.tearing <==> mode.flags & PRESENT_TEARING == PRESENT_TEARING
            &&& options.tearing <==> plan.swap_chain_flags & SWAP_CHAIN_TEARING
                == SWAP_CHAIN_TEARING
            &&& plan.swap_chain_flags & SWAP_CHAIN_WAITABLE == SWAP_CHAIN_WAITABLE
        }),
{
    assert(0x200u32 & 0x200u32 == 0x200u32) by (bit_vector);
    assert(0u32 & 0x200u32 == 0u32) by (bit_vector);
    assert((0x40u32 | 0x800u32) & 0x800u32 == 0x800u32) by (bit_vector);
    assert((0x40u32 | 0x800u32) & 0x40u32 == 0x40u32) by (bit_vector);
    assert(0x40u32 & 0x800u32 == 0u32) by (bit_vector);
    assert(0x40u32 & 0x40u32 == 0x40u32) by (bit_vector);
}

/// Two buffers of the size of the client area, one frame in flight and an object
/// to wait on; what tearing needs is asked for when frames may tear and only then.
/// A present that may tear waits for no vertical blank, every other for one.
pub proof fn law_queue_is_shortest(width: u32, height: u32, tearing: bool, vsync: bool)
    ensures
        ({
            let plan = shortest_queue(width, height, tearing);
            let mode = presented_as(tearing, vsync);
            &&& plan.width == width && plan.height == height
            &&& plan.buffer_count == 2 && plan.max_frame_latency == 1
            &&& tearing ==> plan.device_flags == 0x21 && plan.swap_chain_flags == 0x840
            &&& !tearing ==> plan.device_flags == 0x1 && plan.swap_chain_flags == 0x40
            &&& tearing && !vsync ==> mode.sync_interval == 0 && mode.flags == 0x200
            &&& !tearing || vsync ==> mode.sync_interval == 1 && mode.flags == 0
        }),
{
    assert(0x1u32 | 0x20u32 == 0x21u32) by (bit_vector);
    assert(0x40u32 | 0x800u32 == 0x840u32) by (bit_vector);
}

} // verus!
