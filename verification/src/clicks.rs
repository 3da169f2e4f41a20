//! Which button presses count as clicks.
use crate::log::{click_row, log_click};
use vstd::prelude::*;

verus! {

/// Presses closer together than this many milliseconds are one click.
pub const CLICK_DEBOUNCE_MS: u64 = 150;

/// What is remembered of the clicks so far.
#[derive(Clone, Copy)]
pub struct Clicks {
    /// The counter at the last press, counted as a click or not; zero before
    /// the first press.
    pub last: u64,
    /// Whether a click waits for its flash.
    pub pending: bool,
    /// How many clicks there have been, modulo the width of the counter.
    pub count: u32,
}

/// The ticks within which a second press is not a click of its own.
pub open spec fn debounce_ticks(freq: nat) -> nat {
    CLICK_DEBOUNCE_MS as nat * freq / 1000
}

/// Whether a press at `now`, after one at `last`, is a click.
pub open spec fn is_click(last: nat, now: nat, freq: nat) -> bool {
    last == 0 || now - last >= debounce_ticks(freq)
}

impl Clicks {
    /// No press yet.
    pub open spec fn initial() -> Clicks {
        Clicks { last: 0, pending: false, count: 0 }
    }

    /// No press yet.
    pub fn new() -> (clicks: Clicks)
        ensures
            clicks == Clicks::initial(),
            clicks.last == 0 && !clicks.pending && clicks.count == 0,
    {
        Clicks { last: 0, pending: false, count: 0 }
    }

    /// The state after a press at `now`.
    pub open spec fn after_press(self, now: u64, freq: nat) -> Clicks {
        if is_click(self.last as nat, now as nat, freq) {
            Clicks { last: now, pending: true, count: ((self.count + 1) % 0x1_0000_0000) as u32 }
        } else {
            Clicks { last: now, ..self }
        }
    }

    /// The state after a series of presses.
    pub open spec fn after_presses(self, presses: Seq<u64>, freq: nat) -> Clicks
        decreases presses.len(),
    {
        if presses.len() == 0 {
            self
        } else {
            self.after_presses(presses.drop_last(), freq).after_press(presses.last(), freq)
        }
    }

    /// The lines that a series of presses adds to the click log.
    pub open spec fn lines_for(self, presses: Seq<u64>, freq: nat) -> Seq<Seq<char>>
        decreases presses.len(),
    {
        if presses.len() == 0 {
            Seq::empty()
        } else {
            let earlier = presses.drop_last();
            let state = self.after_presses(earlier, freq);
            if is_click(state.last as nat, presses.last() as nat, freq) {
                self.lines_for(earlier, freq).push(
                    click_row(presses.last() as nat, state.count as nat, freq),
                )
            } else {
                self.lines_for(earlier, freq)
            }
        }
    }

    /// The state when a frame has begun: no click waits for its flash any longer.
    pub open spec fn taken(self) -> Clicks {
        Clicks { pending: false, ..self }
    }

    /// Whether a click waits for its flash; it does not wait any longer.
    pub fn take_pending(&mut self) -> (pending: bool)
        ensures
            pending == old(self).pending,
            *final(self) == old(self).taken(),
            !final(self).pending,
            final(self).last == old(self).last && final(self).count == old(self).count,
    {
        let pending = self.pending;
        self.pending = false;
        pending
    }
}

/// Takes note of a press of the left button at counter value `now`. A press
/// that is a click gets the next sequence number and waits for its flash; its
/// line of the click log is handed back.
pub fn register_click(clicks: &mut Clicks, now: u64, freq: u64) -> (line: Option<String>)
    requires
        CLICK_DEBOUNCE_MS * freq <= u64::MAX,
        old(clicks).last <= now,
    ensures
        *final(clicks) == old(clicks).after_press(now, freq as nat),
        line is Some <==> is_click(old(clicks).last as nat, now as nat, freq as nat),
        line is Some ==> line->0@ == click_row(now as nat, old(clicks).count as nat, freq as nat),
{
    let last: u64 = clicks.last;
    clicks.last = now;
    let debounce: u64 = CLICK_DEBOUNCE_MS * freq / 1000;
    if last == 0 || now - last >= debounce {
        let seq: u32 = clicks.count;
        clicks.count = seq.wrapping_add(1);
        clicks.pending = true;
        Some(log_click(now, seq, freq))
    } else {
        None
    }
}

/// The presses come in the order of the counter, which has left zero.
pub open spec fn in_order(presses: Seq<u64>) -> bool {
    &&& forall|i: int| 0 <= i < presses.len() ==> #[trigger] presses[i] > 0
    &&& forall|i: int, j: int| 0 <= i <= j < presses.len() ==> presses[i] <= presses[j]
}

/// The state after a series of presses, the first of all among them.
pub open spec fn after_presses(presses: Seq<u64>, freq: nat) -> Clicks {
    Clicks::initial().after_presses(presses, freq)
}

/// Whether press `k` of a series is a click: whether the press before it, if there
/// was one, is long enough ago.
pub open spec fn press_is_click(presses: Seq<u64>, k: int, freq: nat) -> bool {
    is_click(
        if k == 0 {
            0
        } else {
            presses[k - 1] as nat
        },
        presses[k] as nat,
        freq,
    )
}

/// The presses of a series that are clicks.
pub open spec fn clicks_among(presses: Seq<u64>, freq: nat) -> Seq<u64>
    decreases presses.len(),
{
    if presses.len() == 0 {
        Seq::empty()
    } else {
        let earlier = presses.drop_last();
        if is_click(after_presses(earlier, freq).last as nat, presses.last() as nat, freq) {
            clicks_among(earlier, freq).push(presses.last())
        } else {
            clicks_among(earlier, freq)
        }
    }
}

/// The state counts the clicks, remembers the last press and lets a flash wait
/// as soon as there has been a click.
pub proof fn law_state_counts_clicks(presses: Seq<u64>, freq: nat)
    ensures
        after_presses(presses, freq).count == clicks_among(presses, freq).len() % 0x1_0000_0000,
        after_presses(presses, freq).pending <==> clicks_among(presses, freq).len() > 0,
        presses.len() > 0 ==> after_presses(presses, freq).last == presses.last(),
    decreases presses.len(),
{
    if presses.len() > 0 {
        law_state_counts_clicks(presses.drop_last(), freq);
    }
}

/// Any two clicks are at least the debounce time apart, to the tick.
pub proof fn law_clicks_are_apart(presses: Seq<u64>, freq: nat, i: int, j: int)
    requires
        in_order(presses),
        0 <= i < j < clicks_among(presses, freq).len(),
    ensures
        ({
            let clicks = clicks_among(presses, freq);
            &&& clicks[j] - clicks[i] >= debounce_ticks(freq)
            &&& 1000 * (clicks[j] - clicks[i] + 1) > CLICK_DEBOUNCE_MS * freq
        }),
    decreases presses.len(),
{
    let earlier = presses.drop_last();
    let clicks = clicks_among(earlier, freq);
    if j < clicks.len() {
        law_clicks_are_apart(earlier, freq, i, j);
    } else {
        lemma_clicks_are_presses(earlier, freq, i);
        law_state_counts_clicks(earlier, freq);
    }
}

/// A click is one of the presses, and so no later than the last of them.
proof fn lemma_clicks_are_presses(presses: Seq<u64>, freq: nat, i: int)
    requires
        in_order(presses),
        0 <= i < clicks_among(presses, freq).len(),
    ensures
        0 < clicks_among(presses, freq)[i] <= presses.last(),
        presses.len() > 0,
    decreases presses.len(),
{
    let earlier = presses.drop_last();
    if i < clicks_among(earlier, freq).len() {
        lemma_clicks_are_presses(earlier, freq, i);
        assert(earlier.last() == presses[presses.len() - 2]);
    }
}

/// A series in which each press follows the one before it within the debounce
/// time is one click, the first press: so is a press that is reported twice.
pub proof fn law_burst_is_one_click(presses: Seq<u64>, freq: nat)
    requires
        in_order(presses),
        presses.len() > 0,
        forall|i: int|
            0 < i < presses.len() ==> (#[trigger] presses[i]) - presses[i - 1] < debounce_ticks(freq),
    ensures
        clicks_among(presses, freq) == seq![presses[0]],
    decreases presses.len(),
{
    let earlier = presses.drop_last();
    law_state_counts_clicks(earlier, freq);
    if earlier.len() > 0 {
        law_burst_is_one_click(earlier, freq);
        assert(presses[presses.len() - 1] - presses[presses.len() - 2] < debounce_ticks(freq));
    } else {
        assert(clicks_among(presses, freq) =~= seq![presses[0]]);
    }
}

/// Where no press follows the one before it within the debounce time, every
/// press is a click.
pub proof fn law_separate_presses_are_clicks(presses: Seq<u64>, freq: nat)
    requires
        forall|i: int|
            0 < i < presses.len() ==> (#[trigger] presses[i]) - presses[i - 1] >= debounce_ticks(
                freq,
            ),
    ensures
        clicks_among(presses, freq) == presses,
    decreases presses.len(),
{
    if presses.len() > 0 {
        let earlier = presses.drop_last();
        law_state_counts_clicks(earlier, freq);
        law_separate_presses_are_clicks(earlier, freq);
        if earlier.len() > 0 {
            assert(presses[presses.len() - 1] - presses[presses.len() - 2] >= debounce_ticks(freq));
        }
        assert(clicks_among(presses, freq) =~= presses);
    } else {
        assert(clicks_among(presses, freq) =~= presses);
    }
}

/// The lines of the click log of a series of presses.
pub open spec fn click_log(presses: Seq<u64>, freq: nat) -> Seq<Seq<char>> {
    Clicks::initial().lines_for(presses, freq)
}

/// The click log holds one line for each click, in order, and numbers them from
/// zero, modulo the width of the number; presses that are no clicks use up no
/// number.
pub proof fn law_every_click_is_logged(presses: Seq<u64>, freq: nat)
    ensures
        click_log(presses, freq).len() == clicks_among(presses, freq).len(),
        forall|k: int|
            0 <= k < clicks_among(presses, freq).len() ==> #[trigger] click_log(presses, freq)[k]
                == click_row(
                clicks_among(presses, freq)[k] as nat,
                (k % 0x1_0000_0000) as nat,
                freq,
            ),
    decreases presses.len(),
{
    if presses.len() > 0 {
        let earlier = presses.drop_last();
        law_every_click_is_logged(earlier, freq);
        law_state_counts_clicks(earlier, freq);
        assert forall|k: int| 0 <= k < clicks_among(presses, freq).len() implies #[trigger] click_log(
            presses,
            freq,
        )[k] == click_row(
            clicks_among(presses, freq)[k] as nat,
            (k % 0x1_0000_0000) as nat,
            freq,
        ) by {
            if k < clicks_among(earlier, freq).len() {
                assert(click_log(presses, freq)[k] == click_log(earlier, freq)[k]);
            }
        }
    }
}

/// What is remembered after a series of presses: the last of them, if there was
/// one, and whether a click waits that waited before or is among them.
pub(crate) proof fn lemma_waits(clicks: Clicks, presses: Seq<u64>, freq: nat)
    ensures
        clicks.after_presses(presses, freq).last == if presses.len() == 0 {
            clicks.last
        } else {
            presses.last()
        },
        clicks.after_presses(presses, freq).pending <==> clicks.pending || exists|k: int|
            0 <= k < presses.len() && is_click(
                if k == 0 {
                    clicks.last as nat
                } else {
                    presses[k - 1] as nat
                },
                #[trigger] presses[k] as nat,
                freq,
            ),
    decreases presses.len(),
{
    if presses.len() > 0 {
        let n = presses.len() - 1;
        let earlier = presses.drop_last();
        lemma_waits(clicks, earlier, freq);
        assert(forall|k: int| 0 <= k < n ==> #[trigger] earlier[k] == presses[k]);
        assert(presses[n] == presses.last());
        let before = |k: int|
            if k == 0 {
                clicks.last as nat
            } else {
                presses[k - 1] as nat
            };
        if clicks.after_presses(earlier, freq).pending && !clicks.pending {
            let k = choose|k: int|
                0 <= k < earlier.len() && is_click(
                    if k == 0 {
                        clicks.last as nat
                    } else {
                        earlier[k - 1] as nat
                    },
                    #[trigger] earlier[k] as nat,
                    freq,
                );
            assert(is_click(before(k), presses[k] as nat, freq));
        }
        if exists|k: int|
            0 <= k < presses.len() && is_click(before(k), #[trigger] presses[k] as nat, freq) {
            let k = choose|k: int|
                0 <= k < presses.len() && is_click(before(k), #[trigger] presses[k] as nat, freq);
            if k < n {
                assert(is_click(before(k), earlier[k] as nat, freq));
            }
        }
    }
}

/// Two series one after the other are one series.
pub(crate) proof fn lemma_presses_add_up(clicks: Clicks, a: Seq<u64>, b: Seq<u64>, freq: nat)
    ensures
        clicks.after_presses(a + b, freq) == clicks.after_presses(a, freq).after_presses(b, freq),
        clicks.lines_for(a + b, freq) == clicks.lines_for(a, freq) + clicks.after_presses(
            a,
            freq,
        ).lines_for(b, freq),
    decreases b.len(),
{
    if b.len() == 0 {
        assert(a + b =~= a);
    } else {
        assert((a + b).drop_last() =~= a + b.drop_last());
        lemma_presses_add_up(clicks, a, b.drop_last(), freq);
    }
}

/// Whether a click waits for its flash has no bearing on which presses are clicks
/// and how they are numbered.
pub(crate) proof fn lemma_waiting_is_apart(a: Clicks, b: Clicks, presses: Seq<u64>, freq: nat)
    requires
        a.taken() == b.taken(),
    ensures
        a.after_presses(presses, freq).taken() == b.after_presses(presses, freq).taken(),
        a.lines_for(presses, freq) == b.lines_for(presses, freq),
    decreases presses.len(),
{
    if presses.len() > 0 {
        lemma_waiting_is_apart(a, b, presses.drop_last(), freq);
    }
}

/// The first press is a click, and so is every press at least 150 milliseconds
/// after the one before it, in whole ticks. A click is counted and waits for its
/// flash; any other press changes nothing but when the last press was.
pub proof fn law_press_is_debounced(clicks: Clicks, now: u64, freq: nat)
    ensures
        ({
            let after = clicks.after_press(now, freq);
            let click = clicks.last == 0 || 1000 * (now - clicks.last + 1) > 150 * freq;
            &&& is_click(clicks.last as nat, now as nat, freq) <==> click
            &&& after.last == now
            &&& after.pending <==> clicks.pending || click
            &&& after.count == (clicks.count + if click {
                1int
            } else {
                0
            }) % 0x1_0000_0000
        }),
{
}

} // verus!
