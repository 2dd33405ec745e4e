//! The record that mirrors one flushed window to the remote store.

use vstd::prelude::*;
use crate::metrics::Metrics as WindowMetrics;

verus! {

/// One window's counters keyed by the device that sampled them. `id` and `created_at` are
/// assigned by the remote store and left out of what is sent.
#[derive(Debug, Clone)]
pub struct Metrics {
    pub id: Option<i64>,
    pub created_at: Option<String>,
    pub keypresses: i64,
    pub mouse_clicks: i64,
    pub mouse_distance_in: i64,
    pub mouse_distance_mi: i64,
    pub scroll_steps: i64,
    pub device_id: String,
}

impl Metrics {
    /// The record of window `w` for device `device_id`.
    pub open spec fn of_window(w: WindowMetrics, device_id: String) -> Metrics {
        Metrics {
            id: None,
            created_at: None,
            keypresses: w.keypresses,
            mouse_clicks: w.mouse_clicks,
            mouse_distance_in: w.mouse_distance_in,
            mouse_distance_mi: w.mouse_distance_mi,
            scroll_steps: w.scroll_steps,
            device_id,
        }
    }

    /// The record of window `w` for device `device_id`.
    pub fn from_window(w: &WindowMetrics, device_id: String) -> (r: Metrics)
        ensures
            r == Metrics::of_window(*w, device_id),
    {
        Metrics {
            id: None,
            created_at: None,
            keypresses: w.keypresses,
            mouse_clicks: w.mouse_clicks,
            mouse_distance_in: w.mouse_distance_in,
            mouse_distance_mi: w.mouse_distance_mi,
            scroll_steps: w.scroll_steps,
            device_id,
        }
    }
}

} // verus!
