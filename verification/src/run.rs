//! A whole run: presses and frames in turn.
//!
//! Before each frame the window system hands over the presses that have come in;
//! then the frame is drawn and presented.
use crate::barcode::{law_pattern_identifies_index, pattern, PATTERNS};
use crate::clicks::{
    after_presses, click_log, is_click, lemma_presses_add_up, lemma_waiting_is_apart, lemma_waits,
    press_is_click, Clicks,
};
use crate::frames::{
    after_frames, clicked_within, law_flash_is_held, law_frames_are_numbered, FrameLoop,
    FLASH_FRAMES,
};
use crate::log::{frame_line, FrameStats};
use vstd::prelude::*;

verus! {

/// What happened in one frame of a run.
pub struct FrameEvent {
    /// The counter at each press that was dealt with before the frame began.
    pub presses: Seq<u64>,
    /// The counter just before the present.
    pub t_present: u64,
    /// What the swap chain reported after it.
    pub stats: Option<FrameStats>,
}

/// Where a run stands between two frames.
pub struct RunState {
    pub clicks: Clicks,
    pub frames: FrameLoop,
}

/// Where a run stands after its frames.
pub open spec fn after_run(run: Seq<FrameEvent>, freq: nat) -> RunState
    decreases run.len(),
{
    if run.len() == 0 {
        RunState { clicks: Clicks::initial(), frames: FrameLoop::initial() }
    } else {
        let before = after_run(run.drop_last(), freq);
        let clicks = before.clicks.after_presses(run.last().presses, freq);
        RunState { clicks: clicks.taken(), frames: before.frames.begun(clicks.pending).ended() }
    }
}

/// The clicks when frame `i` of a run is about to begin.
pub open spec fn clicks_at(run: Seq<FrameEvent>, i: int, freq: nat) -> Clicks {
    after_run(run.take(i), freq).clicks.after_presses(run[i].presses, freq)
}

/// Frame `i` of a run, when it has begun.
pub open spec fn frame_at(run: Seq<FrameEvent>, i: int, freq: nat) -> FrameLoop {
    after_run(run.take(i), freq).frames.begun(clicks_at(run, i, freq).pending)
}

/// All presses of a run, in order.
pub open spec fn presses_of(run: Seq<FrameEvent>) -> Seq<u64>
    decreases run.len(),
{
    if run.len() == 0 {
        Seq::empty()
    } else {
        presses_of(run.drop_last()) + run.last().presses
    }
}

/// Whether one of the presses between frame `i` of a run and the frame before it
/// is a click.
pub open spec fn clicked_before(run: Seq<FrameEvent>, i: int, freq: nat) -> bool {
    exists|k: int|
        presses_of(run.take(i)).len() <= k < presses_of(run.take(i + 1)).len()
            && #[trigger] press_is_click(presses_of(run), k, freq)
}

/// A frame is lit if and only if one of the presses right before it, or right
/// before one of the `FLASH_FRAMES - 1` frames before it, is a click.
pub proof fn law_clicks_light_frames(run: Seq<FrameEvent>, i: int, freq: nat)
    requires
        0 <= i < run.len(),
    ensures
        frame_at(run, i, freq).is_lit() <==> exists|j: int|
            0 <= j <= i && i - FLASH_FRAMES < j && #[trigger] clicked_before(run, j, freq),
{
    let flags = waiting(run, freq);
    lemma_frames_of_run(run.take(i), freq);
    assert(waiting(run.take(i), freq) =~= flags.take(i)) by {
        lemma_waiting_of_prefix(run, i, freq);
    }
    law_flash_is_held(flags, i);
    assert forall|j: int| 0 <= j < run.len() implies flags[j] == #[trigger] clicked_before(
        run,
        j,
        freq,
    ) by {
        lemma_waiting_is_clicked(run, j, freq);
    }
    if clicked_within(flags, i, FLASH_FRAMES - 1) {
        let j = choose|j: int| 0 <= j <= i && i - (FLASH_FRAMES - 1) <= j && #[trigger] flags[j];
        assert(clicked_before(run, j, freq));
    }
    if exists|j: int| 0 <= j <= i && i - FLASH_FRAMES < j && #[trigger] clicked_before(run, j, freq) {
        let j = choose|j: int|
            0 <= j <= i && i - FLASH_FRAMES < j && #[trigger] clicked_before(run, j, freq);
        assert(flags[j]);
    }
}

/// The lines of the click log of a run.
pub open spec fn clicks_logged(run: Seq<FrameEvent>, freq: nat) -> Seq<Seq<char>>
    decreases run.len(),
{
    if run.len() == 0 {
        Seq::empty()
    } else {
        clicks_logged(run.drop_last(), freq) + after_run(run.drop_last(), freq).clicks.lines_for(
            run.last().presses,
            freq,
        )
    }
}

/// Frames change neither which presses are clicks nor how the clicks are numbered
/// and logged: all is as if the presses had come without a frame between them.
/// After a frame no click waits for its flash.
pub proof fn law_frames_leave_clicks_alone(run: Seq<FrameEvent>, freq: nat)
    ensures
        after_run(run, freq).clicks == after_presses(presses_of(run), freq).taken(),
        clicks_logged(run, freq) == click_log(presses_of(run), freq),
    decreases run.len(),
{
    if run.len() > 0 {
        let earlier = run.drop_last();
        let state = after_run(earlier, freq).clicks;
        let plain = after_presses(presses_of(earlier), freq);
        law_frames_leave_clicks_alone(earlier, freq);
        lemma_presses_add_up(Clicks::initial(), presses_of(earlier), run.last().presses, freq);
        assert(state.taken() == plain.taken());
        lemma_waiting_is_apart(state, plain, run.last().presses, freq);
    }
}

/// Whether a click waits for its flash, for each frame of a run.
spec fn waiting(run: Seq<FrameEvent>, freq: nat) -> Seq<bool> {
    Seq::new(run.len(), |i: int| clicks_at(run, i, freq).pending)
}

proof fn lemma_waiting_of_prefix(run: Seq<FrameEvent>, n: int, freq: nat)
    requires
        0 <= n <= run.len(),
    ensures
        waiting(run.take(n), freq) == waiting(run, freq).take(n),
{
    assert forall|i: int| 0 <= i < n implies #[trigger] waiting(run.take(n), freq)[i] == waiting(
        run,
        freq,
    )[i] by {
        assert(run.take(n).take(i) =~= run.take(i));
    }
    assert(waiting(run.take(n), freq) =~= waiting(run, freq).take(n));
}

/// The frame loop of a run sees of its clicks which frames they waited for.
proof fn lemma_frames_of_run(run: Seq<FrameEvent>, freq: nat)
    ensures
        after_run(run, freq).frames == after_frames(waiting(run, freq)),
    decreases run.len(),
{
    if run.len() > 0 {
        let n = run.len() - 1;
        assert(run.drop_last() =~= run.take(n));
        lemma_frames_of_run(run.take(n), freq);
        lemma_waiting_of_prefix(run, n, freq);
        assert(waiting(run, freq).drop_last() =~= waiting(run, freq).take(n));
    }
}

/// The presses up to a frame come first among all presses of a run.
proof fn lemma_presses_of_prefix(run: Seq<FrameEvent>, n: int)
    requires
        0 <= n <= run.len(),
    ensures
        presses_of(run.take(n)) == presses_of(run).take(presses_of(run.take(n)).len() as int),
        presses_of(run.take(n)).len() <= presses_of(run).len(),
    decreases run.len(),
{
    if n == run.len() {
        assert(run.take(n) =~= run);
        assert(presses_of(run) =~= presses_of(run).take(presses_of(run).len() as int));
    } else {
        let earlier = run.drop_last();
        lemma_presses_of_prefix(earlier, n);
        assert(earlier.take(n) =~= run.take(n));
        let len = presses_of(run.take(n)).len() as int;
        assert(presses_of(earlier).take(len) =~= presses_of(run).take(len));
    }
}

/// A click waits for its flash when a frame begins if and only if it came since
/// the frame before.
proof fn lemma_waiting_is_clicked(run: Seq<FrameEvent>, i: int, freq: nat)
    requires
        0 <= i < run.len(),
    ensures
        clicks_at(run, i, freq).pending <==> clicked_before(run, i, freq),
{
    let all = presses_of(run);
    let earlier = presses_of(run.take(i));
    let new = run[i].presses;
    let start = earlier.len() as int;
    let state = after_run(run.take(i), freq).clicks;
    law_frames_leave_clicks_alone(run.take(i), freq);
    lemma_waits(Clicks::initial(), earlier, freq);
    lemma_waits(state, new, freq);
    assert(run.take(i + 1).drop_last() =~= run.take(i));
    assert(presses_of(run.take(i + 1)) == earlier + new);
    lemma_presses_of_prefix(run, i);
    lemma_presses_of_prefix(run, i + 1);
    assert forall|k: int| 0 <= k < start implies all[k] == #[trigger] earlier[k] by {
        assert(all.take(start)[k] == all[k]);
    }
    assert forall|k: int| 0 <= k < new.len() implies all[start + k] == #[trigger] new[k] by {
        assert(all.take(start + new.len())[start + k] == (earlier + new)[start + k]);
    }
    let before = |k: int|
        if k == 0 {
            state.last as nat
        } else {
            new[k - 1] as nat
        };
    assert forall|k: int| 0 <= k < new.len() implies press_is_click(all, start + k, freq)
        == is_click(before(k), #[trigger] new[k] as nat, freq) by {
        if k == 0 {
            if start > 0 {
                assert(earlier[start - 1] == earlier.last());
            }
        } else {
            assert(all[start + (k - 1)] == new[k - 1]);
        }
    }
    if clicks_at(run, i, freq).pending {
        let k = choose|k: int|
            0 <= k < new.len() && is_click(
                if k == 0 {
                    state.last as nat
                } else {
                    new[k - 1] as nat
                },
                #[trigger] new[k] as nat,
                freq,
            );
        assert(press_is_click(all, start + k, freq));
    }
    if clicked_before(run, i, freq) {
        let k = choose|k: int|
            start <= k < presses_of(run.take(i + 1)).len() && #[trigger] press_is_click(
                all,
                k,
                freq,
            );
        assert(is_click(before(k - start), new[k - start] as nat, freq));
    }
}

/// Frames are numbered from zero in the order in which they are presented, and
/// the numbers wrap.
proof fn lemma_index_in_run(run: Seq<FrameEvent>, i: int, freq: nat)
    requires
        0 <= i < run.len(),
    ensures
        frame_at(run, i, freq).present_index == i % 0x1_0000_0000,
{
    lemma_frames_of_run(run.take(i), freq);
    law_frames_are_numbered(waiting(run.take(i), freq));
}

/// The lines of the frame log of a run.
pub open spec fn frame_log(run: Seq<FrameEvent>, freq: nat) -> Seq<Seq<char>>
    decreases run.len(),
{
    if run.len() == 0 {
        Seq::empty()
    } else {
        let n = run.len() - 1;
        frame_log(run.drop_last(), freq).push(
            frame_line(
                frame_at(run, n, freq).present_index as nat,
                run[n].t_present as nat,
                run[n].stats,
            ),
        )
    }
}

/// The frame log holds one line for each present, in order and without gaps:
/// line `i` carries index `i`, modulo the width of the index, whatever was pressed
/// and whatever the swap chain reported.
pub proof fn law_every_present_is_logged(run: Seq<FrameEvent>, freq: nat)
    ensures
        frame_log(run, freq).len() == run.len(),
        forall|i: int|
            0 <= i < run.len() ==> #[trigger] frame_log(run, freq)[i] == frame_line(
                (i % 0x1_0000_0000) as nat,
                run[i].t_present as nat,
                run[i].stats,
            ),
    decreases run.len(),
{
    if run.len() > 0 {
        let n = run.len() - 1;
        let earlier = run.drop_last();
        law_every_present_is_logged(earlier, freq);
        lemma_index_in_run(run, n, freq);
        assert forall|i: int| 0 <= i < run.len() implies #[trigger] frame_log(run, freq)[i]
            == frame_line(
            (i % 0x1_0000_0000) as nat,
            run[i].t_present as nat,
            run[i].stats,
        ) by {
            if i < n {
                assert(frame_log(run, freq)[i] == frame_log(earlier, freq)[i]);
                assert(earlier[i] == run[i]);
            }
        }
    }
}

/// A barcode that was seen resolves to one line of the frame log: the line of the
/// frame that showed it carries that frame's index, and no frame nearby showed
/// the same pattern.
pub proof fn law_barcode_resolves_to_line(run: Seq<FrameEvent>, i: int, j: int, freq: nat)
    requires
        0 <= i < run.len(),
        0 <= j < run.len(),
        -PATTERNS < i - j < PATTERNS,
    ensures
        frame_log(run, freq)[i] == frame_line(
            frame_at(run, i, freq).present_index as nat,
            run[i].t_present as nat,
            run[i].stats,
        ),
        pattern(frame_at(run, i, freq).present_index) == pattern(
            frame_at(run, j, freq).present_index,
        ) <==> i == j,
{
    let a = frame_at(run, i, freq).present_index;
    let b = frame_at(run, j, freq).present_index;
    lemma_index_in_run(run, i, freq);
    lemma_index_in_run(run, j, freq);
    assert(frame_log(run, freq)[i] == frame_line(
        a as nat,
        run[i].t_present as nat,
        run[i].stats,
    )) by {
        law_every_present_is_logged(run, freq);
    }
    assert(pattern(a) == pattern(b) <==> i == j) by {
        law_pattern_identifies_index(a, b);
        lemma_indices_differ(i, j);
    }
}

/// Of frames nearby, no two have the same index modulo the number of patterns.
proof fn lemma_indices_differ(i: int, j: int)
    requires
        -PATTERNS < i - j < PATTERNS,
    ensures
        (i % 0x1_0000_0000) % PATTERNS as int == (j % 0x1_0000_0000) % PATTERNS as int <==> i == j,
{
}

} // verus!
