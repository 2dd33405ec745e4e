//! One step of the sampler: from two consecutive input snapshots to the increments they
//! imply.

use vstd::prelude::*;
use crate::distance::{calculate_multi_monitor_distance, is_distance_result};
use crate::metrics::SampleDelta;
use crate::monitor::{Monitor, topology_well_formed};

verus! {

/// Vertical pointer travel, in pixels, above which one sample counts as a scroll step.
pub const SCROLL_THRESHOLD_PX: u64 = 15;

/// What the input devices report at one instant: the codes of the keys held, the pointer
/// position, and whether each mouse button is pressed.
#[derive(Debug, Clone)]
pub struct InputSnapshot {
    pub keys: Vec<u32>,
    pub mouse_x: i32,
    pub mouse_y: i32,
    pub buttons: Vec<bool>,
}

/// Number of entries of `curr` that do not occur in `prev`.
pub open spec fn count_new(prev: Seq<u32>, curr: Seq<u32>) -> nat
    decreases curr.len(),
{
    if curr.len() == 0 {
        0
    } else {
        count_new(prev, curr.drop_last()) + if prev.contains(curr.last()) {
            0nat
        } else {
            1nat
        }
    }
}

/// Number of positions below `n` where a button went from released to pressed.
pub open spec fn count_rising(prev: Seq<bool>, curr: Seq<bool>, n: int) -> nat
    decreases n,
{
    if n <= 0 {
        0
    } else {
        count_rising(prev, curr, n - 1) + if !prev[n - 1] && curr[n - 1] {
            1nat
        } else {
            0nat
        }
    }
}

/// Number of buttons that both snapshots report.
pub open spec fn common_len(prev: Seq<bool>, curr: Seq<bool>) -> int {
    if prev.len() <= curr.len() {
        prev.len() as int
    } else {
        curr.len() as int
    }
}

fn contains_key(keys: &Vec<u32>, k: u32) -> (r: bool)
    ensures
        r == keys@.contains(k),
{
    let mut i: usize = 0;
    while i < keys.len()
        invariant
            0 <= i <= keys@.len(),
            forall|j: int| 0 <= j < i ==> keys@[j] != k,
        decreases keys@.len() - i,
    {
        if keys[i] == k {
            return true;
        }
        i = i + 1;
    }
    false
}

/// New key presses: the keys held now that were not held at the previous sample. A key held
/// through both samples is not counted again.
pub fn count_new_keys(prev: &Vec<u32>, curr: &Vec<u32>) -> (r: u64)
    ensures
        r == count_new(prev@, curr@),
{
    let mut count: u64 = 0;
    let mut i: usize = 0;
    while i < curr.len()
        invariant
            0 <= i <= curr@.len(),
            count == count_new(prev@, curr@.take(i as int)),
            count <= i,
        decreases curr@.len() - i,
    {
        assert(curr@.take(i + 1).drop_last() =~= curr@.take(i as int));
        if !contains_key(prev, curr[i]) {
            count = count + 1;
        }
        i = i + 1;
    }
    assert(curr@.take(curr@.len() as int) =~= curr@);
    count
}

/// New clicks: the buttons, among those both snapshots report, that went from released to
/// pressed.
pub fn count_clicks(prev: &Vec<bool>, curr: &Vec<bool>) -> (r: u64)
    ensures
        r == count_rising(prev@, curr@, common_len(prev@, curr@)),
{
    let n: usize = if prev.len() <= curr.len() { prev.len() } else { curr.len() };
    let mut count: u64 = 0;
    let mut i: usize = 0;
    while i < n
        invariant
            0 <= i <= n,
            n == common_len(prev@, curr@),
            count == count_rising(prev@, curr@, i as int),
            count <= i,
        decreases n - i,
    {
        if !prev[i] && curr[i] {
            count = count + 1;
        }
        i = i + 1;
    }
    count
}

/// Approximates scrolling from vertical pointer travel between samples.
#[derive(Debug, Clone, Copy, PartialEq, Eq, Structural)]
pub struct ScrollTracker {
    pub last_mouse_y: i32,
}

/// One scroll step when the pointer moved vertically by more than the threshold.
pub open spec fn scroll_step(last_y: int, y: int) -> int {
    let d = if y >= last_y { y - last_y } else { last_y - y };
    if d > SCROLL_THRESHOLD_PX {
        1
    } else {
        0
    }
}

impl ScrollTracker {
    /// A tracker whose last seen pointer height is `mouse_y`.
    pub fn new(mouse_y: i32) -> (r: ScrollTracker)
        ensures
            r.last_mouse_y == mouse_y,
    {
        ScrollTracker { last_mouse_y: mouse_y }
    }

    /// Scroll steps for a pointer now at height `current_y`: one when it moved vertically by
    /// more than the threshold since the last call, none otherwise. Remembers `current_y`.
    pub fn get_scroll_delta(&mut self, current_y: i32) -> (r: u64)
        ensures
            r == scroll_step(old(self).last_mouse_y as int, current_y as int),
            final(self).last_mouse_y == current_y,
    {
        let d: i64 = current_y as i64 - self.last_mouse_y as i64;
        let delta: u64 = if d >= 0 { d as u64 } else { (-d) as u64 };
        self.last_mouse_y = current_y;
        if delta > SCROLL_THRESHOLD_PX {
            1
        } else {
            0
        }
    }
}

/// Pointer travel in micro-inches for a distance answer: the distance, or nothing when the
/// engine failed.
pub open spec fn travel_or_zero(r: Result<u64, crate::monitor::MonitorError>) -> u64 {
    match r {
        Ok(d) => d,
        Err(_) => 0,
    }
}

/// The increments between two consecutive snapshots: keys newly held, buttons newly pressed,
/// pointer travel across the topology (nothing when the distance engine fails), and a scroll
/// step from the tracker, which then remembers the current pointer height.
pub fn sample_delta(
    prev: &InputSnapshot,
    curr: &InputSnapshot,
    scroll: &mut ScrollTracker,
    monitors: &[Monitor],
) -> (r: SampleDelta)
    requires
        topology_well_formed(monitors@),
    ensures
        r.keypresses == count_new(prev.keys@, curr.keys@),
        r.mouse_clicks == count_rising(prev.buttons@, curr.buttons@, common_len(prev.buttons@, curr.buttons@)),
        r.scroll_steps == scroll_step(old(scroll).last_mouse_y as int, curr.mouse_y as int),
        final(scroll).last_mouse_y == curr.mouse_y,
        exists|d: Result<u64, crate::monitor::MonitorError>|
            #[trigger] is_distance_result(monitors@, prev.mouse_x, prev.mouse_y, curr.mouse_x, curr.mouse_y, d)
                && r.distance_micro_in == travel_or_zero(d),
{
    let keypresses = count_new_keys(&prev.keys, &curr.keys);
    let mouse_clicks = count_clicks(&prev.buttons, &curr.buttons);
    let scroll_steps = scroll.get_scroll_delta(curr.mouse_y);
    let d = calculate_multi_monitor_distance(prev.mouse_x, prev.mouse_y, curr.mouse_x, curr.mouse_y, monitors);
    let distance_micro_in = match d {
        Ok(v) => v,
        Err(_) => 0,
    };
    SampleDelta { keypresses, mouse_clicks, distance_micro_in, scroll_steps }
}

} // verus!
