//! Activity counters: the window since the last flush, the cumulative totals, and the
//! increments that one input sample adds to both.
//!
//! Distances are fixed point: `mouse_distance_in` counts micro-inches and `mouse_distance_mi`
//! counts nano-miles. Counters saturate at `i64::MAX`.

use vstd::prelude::*;
use vstd::arithmetic::div_mod::{lemma_div_by_multiple, lemma_div_is_ordered};

verus! {

/// Nano-miles in one micro-inch, as a fraction: `1000 / 63360`.
pub const INCHES_PER_MILE: u64 = 63360;

/// Nano-miles travelled for a distance in micro-inches, rounded down.
pub open spec fn nano_miles(micro_inches: int) -> int {
    micro_inches * 1000 / (INCHES_PER_MILE as int)
}

/// Nano-miles travelled for a distance in micro-inches, rounded down.
pub fn to_nano_miles(micro_inches: u64) -> (r: u64)
    ensures
        r == nano_miles(micro_inches as int),
{
    let ghost x = micro_inches as int;
    proof {
        assert(x * 1000 <= x * 63360) by (nonlinear_arith)
            requires
                x >= 0,
        ;
        lemma_div_is_ordered(x * 1000, x * 63360, 63360);
        lemma_div_is_ordered(0, x * 1000, 63360);
        lemma_div_by_multiple(x, 63360);
    }
    ((micro_inches as u128) * 1000 / (INCHES_PER_MILE as u128)) as u64
}

/// `a + d`, or `i64::MAX` where that is larger.
pub open spec fn sat_add(a: i64, d: u64) -> i64 {
    if a + d > i64::MAX {
        i64::MAX
    } else {
        (a + d) as i64
    }
}

fn add_saturating(a: i64, d: u64) -> (r: i64)
    ensures
        r == sat_add(a, d),
{
    let s: i128 = a as i128 + d as i128;
    if s > i64::MAX as i128 {
        i64::MAX
    } else {
        s as i64
    }
}

/// What one input sample adds: new key presses, new button presses, pointer travel in
/// micro-inches and scroll steps.
#[derive(Debug, Clone, Copy, PartialEq, Eq, Structural)]
pub struct SampleDelta {
    pub keypresses: u64,
    pub mouse_clicks: u64,
    pub distance_micro_in: u64,
    pub scroll_steps: u64,
}

/// Counters accumulated since the last successful flush.
#[derive(Debug, Clone, Copy, PartialEq, Eq, Structural)]
pub struct Metrics {
    pub keypresses: i64,
    pub mouse_clicks: i64,
    pub mouse_distance_in: i64,
    pub mouse_distance_mi: i64,
    pub scroll_steps: i64,
}

/// All-time totals, as the durable store last reported them plus what was sampled since.
#[derive(Debug, Clone, Copy, PartialEq, Eq, Structural)]
pub struct TotalMetrics {
    pub total_keypresses: i64,
    pub total_mouse_clicks: i64,
    pub total_mouse_distance_in: i64,
    pub total_mouse_distance_mi: i64,
    pub total_scroll_steps: i64,
}

/// The window with every counter at zero.
pub open spec fn zero_metrics() -> Metrics {
    Metrics {
        keypresses: 0,
        mouse_clicks: 0,
        mouse_distance_in: 0,
        mouse_distance_mi: 0,
        scroll_steps: 0,
    }
}

impl Metrics {
    /// No counter is negative.
    pub open spec fn is_valid(self) -> bool {
        &&& self.keypresses >= 0
        &&& self.mouse_clicks >= 0
        &&& self.mouse_distance_in >= 0
        &&& self.mouse_distance_mi >= 0
        &&& self.scroll_steps >= 0
    }

    /// The window after one sample's increments.
    pub open spec fn applied(self, d: SampleDelta) -> Metrics {
        Metrics {
            keypresses: sat_add(self.keypresses, d.keypresses),
            mouse_clicks: sat_add(self.mouse_clicks, d.mouse_clicks),
            mouse_distance_in: sat_add(self.mouse_distance_in, d.distance_micro_in),
            mouse_distance_mi: sat_add(
                self.mouse_distance_mi,
                nano_miles(d.distance_micro_in as int) as u64,
            ),
            scroll_steps: sat_add(self.scroll_steps, d.scroll_steps),
        }
    }

    /// A window with every counter at zero.
    pub fn new() -> (r: Metrics)
        ensures
            r == zero_metrics(),
    {
        Metrics { keypresses: 0, mouse_clicks: 0, mouse_distance_in: 0, mouse_distance_mi: 0, scroll_steps: 0 }
    }

    /// Clears every counter.
    pub fn reset(&mut self)
        ensures
            *final(self) == zero_metrics(),
    {
        self.keypresses = 0;
        self.mouse_clicks = 0;
        self.mouse_distance_in = 0;
        self.mouse_distance_mi = 0;
        self.scroll_steps = 0;
    }

    /// Adds one sample's increments.
    pub fn apply(&mut self, d: &SampleDelta)
        ensures
            *final(self) == old(self).applied(*d),
    {
        let miles = to_nano_miles(d.distance_micro_in);
        self.keypresses = add_saturating(self.keypresses, d.keypresses);
        self.mouse_clicks = add_saturating(self.mouse_clicks, d.mouse_clicks);
        self.mouse_distance_in = add_saturating(self.mouse_distance_in, d.distance_micro_in);
        self.mouse_distance_mi = add_saturating(self.mouse_distance_mi, miles);
        self.scroll_steps = add_saturating(self.scroll_steps, d.scroll_steps);
    }
}

impl TotalMetrics {
    /// The totals after one sample's increments.
    pub open spec fn applied(self, d: SampleDelta) -> TotalMetrics {
        TotalMetrics {
            total_keypresses: sat_add(self.total_keypresses, d.keypresses),
            total_mouse_clicks: sat_add(self.total_mouse_clicks, d.mouse_clicks),
            total_mouse_distance_in: sat_add(self.total_mouse_distance_in, d.distance_micro_in),
            total_mouse_distance_mi: sat_add(
                self.total_mouse_distance_mi,
                nano_miles(d.distance_micro_in as int) as u64,
            ),
            total_scroll_steps: sat_add(self.total_scroll_steps, d.scroll_steps),
        }
    }

    /// Adds one sample's increments.
    pub fn apply(&mut self, d: &SampleDelta)
        ensures
            *final(self) == old(self).applied(*d),
    {
        let miles = to_nano_miles(d.distance_micro_in);
        self.total_keypresses = add_saturating(self.total_keypresses, d.keypresses);
        self.total_mouse_clicks = add_saturating(self.total_mouse_clicks, d.mouse_clicks);
        self.total_mouse_distance_in = add_saturating(self.total_mouse_distance_in, d.distance_micro_in);
        self.total_mouse_distance_mi = add_saturating(self.total_mouse_distance_mi, miles);
        self.total_scroll_steps = add_saturating(self.total_scroll_steps, d.scroll_steps);
    }
}

/// The window after a sequence of samples, applied in order.
pub open spec fn apply_all(w: Metrics, ds: Seq<SampleDelta>) -> Metrics
    decreases ds.len(),
{
    if ds.len() == 0 {
        w
    } else {
        apply_all(w, ds.drop_last()).applied(ds.last())
    }
}

/// Whatever samples are applied to a window without negative counters, no counter becomes
/// negative.
pub proof fn lemma_samples_keep_window_valid(w: Metrics, ds: Seq<SampleDelta>)
    requires
        w.is_valid(),
    ensures
        apply_all(w, ds).is_valid(),
    decreases ds.len(),
{
    if ds.len() > 0 {
        lemma_samples_keep_window_valid(w, ds.drop_last());
    }
}

/// Applying two runs of samples one after the other is applying them as one run: a window
/// that a failed flush kept, and then took a second interval's samples, holds both
/// intervals' increments.
pub proof fn lemma_apply_all_concat(w: Metrics, d1: Seq<SampleDelta>, d2: Seq<SampleDelta>)
    ensures
        apply_all(w, d1 + d2) == apply_all(apply_all(w, d1), d2),
    decreases d2.len(),
{
    if d2.len() > 0 {
        assert((d1 + d2).drop_last() =~= d1 + d2.drop_last());
        lemma_apply_all_concat(w, d1, d2.drop_last());
    } else {
        assert(d1 + d2 =~= d1);
    }
}

} // verus!
