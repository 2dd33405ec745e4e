//! The totals as the menu bar shows them.

use vstd::prelude::*;
use crate::metrics::TotalMetrics;

verus! {

/// What the menu bar displays: the all-time counters, distances in micro-inches and
/// nano-miles.
#[derive(Debug, Clone, Copy, PartialEq, Eq, Structural)]
pub struct MenuMetrics {
    pub keypresses: i64,
    pub mouse_clicks: i64,
    pub mouse_distance_in: i64,
    pub mouse_distance_mi: i64,
    pub scroll_steps: i64,
}

impl MenuMetrics {
    pub fn new(
        keypresses: i64,
        mouse_clicks: i64,
        mouse_distance_in: i64,
        mouse_distance_mi: i64,
        scroll_steps: i64,
    ) -> (r: MenuMetrics)
        ensures
            r == (MenuMetrics { keypresses, mouse_clicks, mouse_distance_in, mouse_distance_mi, scroll_steps }),
    {
        MenuMetrics { keypresses, mouse_clicks, mouse_distance_in, mouse_distance_mi, scroll_steps }
    }

    /// What the menu bar shows for totals `t`.
    pub fn from_totals(t: &TotalMetrics) -> (r: MenuMetrics)
        ensures
            r == (MenuMetrics {
                keypresses: t.total_keypresses,
                mouse_clicks: t.total_mouse_clicks,
                mouse_distance_in: t.total_mouse_distance_in,
                mouse_distance_mi: t.total_mouse_distance_mi,
                scroll_steps: t.total_scroll_steps,
            }),
    {
        MenuMetrics::new(
            t.total_keypresses,
            t.total_mouse_clicks,
            t.total_mouse_distance_in,
            t.total_mouse_distance_mi,
            t.total_scroll_steps,
        )
    }
}

} // verus!
