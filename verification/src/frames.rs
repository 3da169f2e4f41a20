//! The frame loop: what each frame shows and what is recorded of it.
//!
//! The window system is asked for its messages, the frame is drawn, stamped and
//! presented, and its statistics are read. [`FrameLoop::poll`] decides before
//! the frame, [`FrameLoop::presented`] after it.
use crate::barcode::{barcode, next_index, pattern};
use crate::clicks::{is_click, Clicks};
use crate::log::{frame_line, log_present, FrameStats};
use crate::options::{mode_name, mode_text, Options};
use crate::present::{present_mode, presented_as, PresentMode};
use crate::text::{decimal, push_decimal};
use vstd::prelude::*;

verus! {

/// How many frames a flash is held.
pub const FLASH_FRAMES: u32 = 4;

/// How many frames go by from one title to the next.
pub const TITLE_FRAMES: u32 = 15;

/// How long to wait for the swap chain, in milliseconds.
pub const FRAME_WAIT_MS: u32 = 1000;

/// Where the loop stands between two frames.
#[derive(Clone, Copy)]
pub struct FrameLoop {
    /// The index of the next frame.
    pub present_index: u32,
    /// How many more frames show the flash.
    pub flash_frames_left: u32,
}

/// A frame to wait for, draw and present.
#[derive(Clone, Copy)]
pub struct FramePlan {
    /// How long to wait for the swap chain, in milliseconds.
    pub wait_ms: u32,
    pub flash_active: bool,
    /// The pattern of the barcode strip.
    pub gray_code: u32,
    pub mode: PresentMode,
}

/// What follows from a presented frame.
pub struct FrameReport {
    /// The line for the frame log.
    pub row: String,
    /// A new window title.
    pub title: Option<String>,
}

/// The title of the window.
pub open spec fn title_text(fullscreen: bool, clicks: nat, frame: nat, flash: bool) -> Seq<char> {
    "latency-agent ["@ + mode_text(fullscreen) + "]  clicks="@ + decimal(clicks) + "  frame="@
        + decimal(frame) + if flash {
        "  FLASH"@
    } else {
        ""@
    }
}

/// The title of the window.
pub fn title(fullscreen: bool, clicks: u32, frame: u32, flash: bool) -> (text: String)
    ensures
        text@ == title_text(fullscreen, clicks as nat, frame as nat, flash),
        text@ == (if fullscreen {
            "latency-agent ["@ + "fullscreen"@ + "]  clicks="@
        } else {
            "latency-agent ["@ + "windowed"@ + "]  clicks="@
        }) + decimal(clicks as nat) + "  frame="@ + decimal(frame as nat) + if flash {
            "  FLASH"@
        } else {
            ""@
        },
{
    let mut text: String = String::from_str("latency-agent [");
    text.append(mode_name(fullscreen));
    text.append("]  clicks=");
    push_decimal(&mut text, clicks as u64);
    text.append("  frame=");
    push_decimal(&mut text, frame as u64);
    text.append(
        if flash {
            "  FLASH"
        } else {
            ""
        },
    );
    text
}

impl FrameLoop {
    /// Before the first frame.
    pub open spec fn initial() -> FrameLoop {
        FrameLoop { present_index: 0, flash_frames_left: 0 }
    }

    /// The loop when a frame begins, with a click waiting for its flash or
    /// without.
    pub open spec fn begun(self, click: bool) -> FrameLoop {
        if click {
            FrameLoop { flash_frames_left: FLASH_FRAMES, ..self }
        } else {
            self
        }
    }

    /// Whether the frame that has begun shows the flash.
    pub open spec fn is_lit(self) -> bool {
        self.flash_frames_left > 0
    }

    /// The loop when the frame has been presented.
    pub open spec fn ended(self) -> FrameLoop {
        FrameLoop {
            present_index: next_index(self.present_index),
            flash_frames_left: if self.flash_frames_left > 0 {
                (self.flash_frames_left - 1) as u32
            } else {
                0
            },
        }
    }

    /// Before the first frame.
    pub fn new() -> (frames: FrameLoop)
        ensures
            frames == FrameLoop::initial(),
            frames.present_index == 0 && frames.flash_frames_left == 0,
    {
        FrameLoop { present_index: 0, flash_frames_left: 0 }
    }

    /// Begins a frame, once the messages of the window have been dealt with,
    /// and tells what to draw and how to present it; or nothing, if the messages
    /// told to quit. A click that waits for its flash gets it in this frame.
    pub fn poll(&mut self, quit: bool, clicks: &mut Clicks, options: &Options) -> (plan: Option<
        FramePlan,
    >)
        ensures
            plan is None <==> quit,
            quit ==> *final(self) == *old(self) && *final(clicks) == *old(clicks),
            !quit ==> {
                &&& *final(self) == old(self).begun(old(clicks).pending)
                &&& *final(clicks) == old(clicks).taken()
                &&& plan->0 == (FramePlan {
                    wait_ms: FRAME_WAIT_MS,
                    flash_active: final(self).is_lit(),
                    gray_code: pattern(old(self).present_index),
                    mode: presented_as(options.tearing, options.waits_for_vsync()),
                })
                &&& plan->0.wait_ms == 1000
                &&& plan->0.flash_active <==> old(clicks).pending || old(self).flash_frames_left > 0
                &&& !final(clicks).pending
                &&& final(clicks).last == old(clicks).last
                &&& final(clicks).count == old(clicks).count
            },
    {
        if quit {
            return None;
        }
        if clicks.take_pending() {
            self.flash_frames_left = FLASH_FRAMES;
        }
        Some(
            FramePlan {
                wait_ms: FRAME_WAIT_MS,
                flash_active: self.flash_frames_left > 0,
                gray_code: barcode(self.present_index),
                mode: present_mode(options.tearing, options.vsync()),
            },
        )
    }

    /// Ends a frame that was presented at counter value `t_present`. Every frame
    /// is recorded, with the statistics of the swap chain if it has any; every
    /// so many frames the title is renewed.
    pub fn presented(
        &mut self,
        flash_active: bool,
        t_present: u64,
        stats: Option<FrameStats>,
        clicks: &Clicks,
        options: &Options,
    ) -> (report: FrameReport)
        ensures
            *final(self) == old(self).ended(),
            report.row@ == frame_line(
                old(self).present_index as nat,
                t_present as nat,
                stats,
            ),
            report.title is Some <==> next_index(old(self).present_index) % TITLE_FRAMES == 0,
            report.title is Some <==> (old(self).present_index + 1) % 0x1_0000_0000 % 15 == 0,
            report.title is Some ==> report.title->0@ == title_text(
                options.fullscreen,
                clicks.count as nat,
                next_index(old(self).present_index) as nat,
                flash_active,
            ),
    {
        let row: String = log_present(self.present_index, t_present, stats);
        if self.flash_frames_left > 0 {
            self.flash_frames_left = self.flash_frames_left - 1;
        }
        self.present_index = self.present_index.wrapping_add(1);
        let title: Option<String> = if self.present_index % TITLE_FRAMES == 0 {
            Some(title(options.fullscreen, clicks.count, self.present_index, flash_active))
        } else {
            None
        };
        FrameReport { row, title }
    }
}

/// The loop after as many frames as there are entries, each of which tells
/// whether a click waited for its flash when the frame began.
pub open spec fn after_frames(clicks: Seq<bool>) -> FrameLoop
    decreases clicks.len(),
{
    if clicks.len() == 0 {
        FrameLoop::initial()
    } else {
        after_frames(clicks.drop_last()).begun(clicks.last()).ended()
    }
}

/// Whether frame `i` of such a run shows the flash.
pub open spec fn frame_is_lit(clicks: Seq<bool>, i: int) -> bool {
    after_frames(clicks.take(i)).begun(clicks[i]).is_lit()
}

/// Whether a click got its flash in frame `i` or in one of the `back` frames
/// before it.
pub open spec fn clicked_within(clicks: Seq<bool>, i: int, back: int) -> bool {
    exists|j: int| 0 <= j <= i && i - back <= j && #[trigger] clicks[j]
}

/// A flash begins with the first frame after its click and is held for
/// [`FLASH_FRAMES`] frames; a frame is lit for that reason and for no other.
pub proof fn law_flash_is_held(clicks: Seq<bool>, i: int)
    requires
        0 <= i < clicks.len(),
    ensures
        frame_is_lit(clicks, i) <==> clicked_within(clicks, i, FLASH_FRAMES - 1),
{
    lemma_flash_left(clicks.take(i));
    let before = after_frames(clicks.take(i)).flash_frames_left;
    if clicked_within(clicks, i, FLASH_FRAMES - 1) {
        let j = choose|j: int| 0 <= j <= i && i - (FLASH_FRAMES - 1) <= j && #[trigger] clicks[j];
        if j < i {
            assert(clicks.take(i)[j]);
            assert(clicked_within(clicks.take(i), i - 1, FLASH_FRAMES - 2));
        }
    }
    if before > 0 {
        assert(clicked_within(clicks.take(i), i - 1, FLASH_FRAMES - 2));
        let j = choose|j: int|
            0 <= j <= i - 1 && i - 1 - (FLASH_FRAMES - 2) <= j && #[trigger] clicks.take(i)[j];
        assert(clicks[j]);
    }
}

/// A press that is a click lights the next frame, whatever was shown before;
/// one that is not changes nothing of it.
pub proof fn law_click_lights_next_frame(frames: FrameLoop, clicks: Clicks, now: u64, freq: nat)
    ensures
        ({
            let next = frames.begun(clicks.after_press(now, freq).pending);
            if is_click(clicks.last as nat, now as nat, freq) {
                next.is_lit() && next.flash_frames_left == FLASH_FRAMES
            } else {
                next == frames.begun(clicks.pending)
            }
        }),
{
}

/// How many frames of a flash are left after a run: the later a click got its
/// flash, the more.
proof fn lemma_flash_left(clicks: Seq<bool>)
    ensures
        after_frames(clicks).flash_frames_left < FLASH_FRAMES,
        forall|back: int|
            0 <= back <= FLASH_FRAMES - 2 ==> (after_frames(clicks).flash_frames_left
                > FLASH_FRAMES - 2 - back <==> #[trigger] clicked_within(
                clicks,
                clicks.len() - 1,
                back,
            )),
    decreases clicks.len(),
{
    if clicks.len() > 0 {
        let n = clicks.len() - 1;
        let earlier = clicks.drop_last();
        lemma_flash_left(earlier);
        assert forall|back: int| 0 <= back <= FLASH_FRAMES - 2 implies (after_frames(
            clicks,
        ).flash_frames_left > FLASH_FRAMES - 2 - back <==> #[trigger] clicked_within(
            clicks,
            n,
            back,
        )) by {
            if clicks[n] {
                assert(clicked_within(clicks, n, back));
            } else {
                if clicked_within(clicks, n, back) {
                    let j = choose|j: int| 0 <= j <= n && n - back <= j && #[trigger] clicks[j];
                    assert(earlier[j]);
                    assert(clicked_within(earlier, n - 1, back - 1));
                }
                if after_frames(clicks).flash_frames_left > FLASH_FRAMES - 2 - back {
                    assert(back > 0);
                    assert(clicked_within(earlier, n - 1, back - 1));
                    let j = choose|j: int|
                        0 <= j <= n - 1 && n - 1 - (back - 1) <= j && #[trigger] earlier[j];
                    assert(clicks[j]);
                }
            }
        }
    }
}

/// Frames are numbered from zero in the order in which they are presented, and
/// the numbers wrap.
pub proof fn law_frames_are_numbered(clicks: Seq<bool>)
    ensures
        after_frames(clicks).present_index == clicks.len() % 0x1_0000_0000,
    decreases clicks.len(),
{
    if clicks.len() > 0 {
        law_frames_are_numbered(clicks.drop_last());
    }
}

/// A click lights four frames from the one that begins with it, whatever was shown
/// before; each frame that is presented takes one of them away, and counts.
pub proof fn law_frame_by_frame(frames: FrameLoop, click: bool)
    ensures
        ({
            let begun = frames.begun(click);
            &&& begun.present_index == frames.present_index
            &&& click ==> begun.flash_frames_left == 4
            &&& !click ==> begun.flash_frames_left == frames.flash_frames_left
            &&& begun.is_lit() <==> begun.flash_frames_left >= 1
        }),
        ({
            let ended = frames.ended();
            &&& ended.present_index == (frames.present_index + 1) % 0x1_0000_0000
            &&& frames.is_lit() ==> ended.flash_frames_left + 1 == frames.flash_frames_left
            &&& !frames.is_lit() ==> ended.flash_frames_left == 0
        }),
{
}

/// A title is that of its mode, tells clicks and frame in decimal after their
/// names, and tells of the flash while it is shown.
pub proof fn law_title_tells(fullscreen: bool, clicks: nat, frame: nat, flash: bool)
    ensures
        title_text(fullscreen, clicks, frame, flash) == (if fullscreen {
            "latency-agent ["@ + "fullscreen"@ + "]  clicks="@
        } else {
            "latency-agent ["@ + "windowed"@ + "]  clicks="@
        }) + decimal(clicks) + "  frame="@ + decimal(frame) + if flash {
            "  FLASH"@
        } else {
            ""@
        },
{
}

} // verus!
