use kweeb_logger::flush::{apply_to_cells, FlushAction, FlushCycle, FlushEvent, FlushPhase, StoreError, SyncError};
use kweeb_logger::metrics::{to_nano_miles, Metrics, SampleDelta, TotalMetrics};
use kweeb_logger::monitor::{Monitor, MonitorOrientation};
use kweeb_logger::sampler::{count_clicks, count_new_keys, sample_delta, InputSnapshot, ScrollTracker};

fn screen() -> Vec<Monitor> {
    vec![Monitor {
        x_pos: 0,
        y_pos: 0,
        width_px: 1920,
        height_px: 1080,
        ppi_milli: 96_000,
        primary: true,
        display_id: 1,
        orientation: MonitorOrientation::Horizontal,
    }]
}

fn snapshot(keys: Vec<u32>, x: i32, y: i32, buttons: Vec<bool>) -> InputSnapshot {
    InputSnapshot { keys, mouse_x: x, mouse_y: y, buttons }
}

fn totals(k: i64) -> TotalMetrics {
    TotalMetrics {
        total_keypresses: k,
        total_mouse_clicks: 2 * k,
        total_mouse_distance_in: 3 * k,
        total_mouse_distance_mi: 0,
        total_scroll_steps: 4 * k,
    }
}

fn delta(keys: u64) -> SampleDelta {
    SampleDelta { keypresses: keys, mouse_clicks: 1, distance_micro_in: 63_360_000, scroll_steps: 0 }
}

#[test]
fn single_monitor_sample_end_to_end() {
    let ms = screen();
    let mut scroll = ScrollTracker::new(0);
    let d = sample_delta(&snapshot(vec![], 0, 0, vec![false]), &snapshot(vec![], 960, 0, vec![false]), &mut scroll, &ms);
    assert_eq!(d.distance_micro_in, 10_000_000);
    let mut w = Metrics::new();
    w.apply(&d);
    assert_eq!(w.mouse_distance_in, 10_000_000);
    // 10 / 63360 miles is about 0.000158 miles.
    assert_eq!(w.mouse_distance_mi, 157_828);
}

#[test]
fn sampler_counts_new_keys_clicks_and_scroll() {
    let ms = screen();
    let mut scroll = ScrollTracker::new(100);
    let prev = snapshot(vec![4, 5], 10, 100, vec![false, true, false]);
    let curr = snapshot(vec![5, 6, 7], 10, 120, vec![true, true, false]);
    let d = sample_delta(&prev, &curr, &mut scroll, &ms);
    assert_eq!(d.keypresses, 2);
    assert_eq!(d.mouse_clicks, 1);
    assert_eq!(d.scroll_steps, 1);
    assert_eq!(scroll.last_mouse_y, 120);
    assert_eq!(d.distance_micro_in, 208_333);
}

#[test]
fn sampler_counts_no_distance_off_the_monitors() {
    let ms = screen();
    let mut scroll = ScrollTracker::new(0);
    let d = sample_delta(&snapshot(vec![], 0, 0, vec![]), &snapshot(vec![], 5000, 0, vec![]), &mut scroll, &ms);
    assert_eq!(d.distance_micro_in, 0);
}

#[test]
fn held_keys_are_not_counted_again() {
    assert_eq!(count_new_keys(&vec![1, 2, 3], &vec![1, 2, 3]), 0);
    assert_eq!(count_new_keys(&vec![], &vec![9, 9]), 2);
    assert_eq!(count_new_keys(&vec![1], &vec![2, 1, 3]), 2);
}

#[test]
fn clicks_count_rising_edges_only() {
    assert_eq!(count_clicks(&vec![false, false, true], &vec![true, true, true]), 2);
    assert_eq!(count_clicks(&vec![true], &vec![false]), 0);
    assert_eq!(count_clicks(&vec![false], &vec![true, true]), 1);
}

#[test]
fn scroll_threshold_is_exclusive() {
    let mut t = ScrollTracker::new(0);
    assert_eq!(t.get_scroll_delta(15), 0);
    assert_eq!(t.get_scroll_delta(31), 1);
    assert_eq!(t.get_scroll_delta(0), 1);
    assert_eq!(t.get_scroll_delta(-15), 0);
}

#[test]
fn window_never_negative_and_saturates() {
    let mut w = Metrics::new();
    for k in 0..50 {
        w.apply(&delta(k));
        assert!(w.keypresses >= 0 && w.mouse_clicks >= 0 && w.mouse_distance_in >= 0);
        assert!(w.mouse_distance_mi >= 0 && w.scroll_steps >= 0);
    }
    assert_eq!(w.keypresses, 1225);
    assert_eq!(w.mouse_clicks, 50);
    assert_eq!(w.mouse_distance_mi, 50 * 1_000_000);
    w.keypresses = i64::MAX - 1;
    w.apply(&SampleDelta { keypresses: u64::MAX, mouse_clicks: 0, distance_micro_in: 0, scroll_steps: 0 });
    assert_eq!(w.keypresses, i64::MAX);
    w.reset();
    assert_eq!(w, Metrics::new());
}

#[test]
fn nano_mile_conversion() {
    assert_eq!(to_nano_miles(63_360_000_000), 1_000_000_000);
    assert_eq!(to_nano_miles(u64::MAX), 291_141_794_092_638_125);
}

#[test]
fn totals_take_sample_increments() {
    let mut t = totals(1);
    t.apply(&delta(3));
    assert_eq!(t.total_keypresses, 4);
    assert_eq!(t.total_mouse_clicks, 3);
    assert_eq!(t.total_mouse_distance_in, 3 + 63_360_000);
    assert_eq!(t.total_mouse_distance_mi, 1_000_000);
}

fn window_with(k: u64) -> Metrics {
    let mut w = Metrics::new();
    w.apply(&delta(k));
    w
}

#[test]
fn failed_insert_keeps_window_and_totals() {
    let mut window = window_with(7);
    let mut cumulative = totals(10);
    let before = (window, cumulative);
    let mut cycle = FlushCycle::new(String::from("dev"), true);
    let a = cycle.step(FlushEvent::WindowCopied(window));
    assert!(matches!(a, FlushAction::Insert(w) if w == window));
    apply_to_cells(&a, &mut window, &mut cumulative);
    let a = cycle.step(FlushEvent::InsertFinished(Err(StoreError { message: String::from("disk full") })));
    assert!(matches!(a, FlushAction::Skip));
    apply_to_cells(&a, &mut window, &mut cumulative);
    assert_eq!(cycle.phase, FlushPhase::Finished);
    assert_eq!((window, cumulative), before);

    // The next interval's samples add to what was kept, and the next insert carries both.
    window.apply(&delta(5));
    let mut next = FlushCycle::new(String::from("dev"), false);
    let a = next.step(FlushEvent::WindowCopied(window));
    match a {
        FlushAction::Insert(w) => {
            assert_eq!(w.keypresses, 12);
            assert_eq!(w.mouse_clicks, 2);
        }
        _ => panic!("expected an insert"),
    }
}

#[test]
fn insert_timeout_leaves_counters_unchanged() {
    let mut window = window_with(3);
    let mut cumulative = totals(2);
    let before = (window, cumulative);
    let mut cycle = FlushCycle::new(String::from("dev"), false);
    let a = cycle.step(FlushEvent::WindowCopied(window));
    apply_to_cells(&a, &mut window, &mut cumulative);
    let a = cycle.step(FlushEvent::InsertFinished(Err(StoreError { message: String::from("timed out") })));
    apply_to_cells(&a, &mut window, &mut cumulative);
    assert_eq!((window, cumulative), before);
}

#[test]
fn lock_timeout_skips_cycle() {
    let mut window = window_with(3);
    let mut cumulative = totals(2);
    let before = (window, cumulative);
    let mut cycle = FlushCycle::new(String::from("dev"), true);
    let a = cycle.step(FlushEvent::LockTimedOut);
    assert!(matches!(a, FlushAction::Skip));
    apply_to_cells(&a, &mut window, &mut cumulative);
    assert_eq!((window, cumulative), before);
}

#[test]
fn successful_flush_takes_store_totals_and_mirrors() {
    let mut window = window_with(4);
    let mut cumulative = totals(1);
    let store_totals = totals(99);
    let mut cycle = FlushCycle::new(String::from("device-1"), true);
    let snapshot = window;
    let a = cycle.step(FlushEvent::WindowCopied(snapshot));
    apply_to_cells(&a, &mut window, &mut cumulative);
    let a = cycle.step(FlushEvent::InsertFinished(Ok(())));
    assert!(matches!(a, FlushAction::FetchTotals));
    let a = cycle.step(FlushEvent::TotalsFetched(Ok(store_totals)));
    match &a {
        FlushAction::Upsert(rec) => {
            assert_eq!(rec.device_id, "device-1");
            assert_eq!(rec.keypresses, snapshot.keypresses);
            assert_eq!(rec.mouse_distance_in, snapshot.mouse_distance_in);
            assert_eq!(rec.id, None);
        }
        _ => panic!("expected an upsert"),
    }
    apply_to_cells(&a, &mut window, &mut cumulative);
    assert_eq!(cumulative, totals(1));
    let a = cycle.step(FlushEvent::SyncFinished(Err(SyncError { message: String::from("offline") })));
    apply_to_cells(&a, &mut window, &mut cumulative);
    assert_eq!(cumulative, store_totals);
    assert_eq!(window, Metrics::new());
}

#[test]
fn successful_flush_without_totals_still_clears_window() {
    let mut window = window_with(4);
    let mut cumulative = totals(1);
    let mut cycle = FlushCycle::new(String::from("d"), false);
    let a = cycle.step(FlushEvent::WindowCopied(window));
    apply_to_cells(&a, &mut window, &mut cumulative);
    let a = cycle.step(FlushEvent::InsertFinished(Ok(())));
    apply_to_cells(&a, &mut window, &mut cumulative);
    let a = cycle.step(FlushEvent::TotalsFetched(Err(StoreError { message: String::from("locked") })));
    assert!(matches!(a, FlushAction::Commit(None)));
    apply_to_cells(&a, &mut window, &mut cumulative);
    assert_eq!(cumulative, totals(1));
    assert_eq!(window, Metrics::new());
}
