use kweeb_logger::distance::{
    calculate_distance, calculate_multi_monitor_distance, find_optimal_path, is_valid_movement, isqrt,
    path_distance,
};
use kweeb_logger::monitor::{
    are_monitors_adjacent, get_monitor_for_coordinates, manhattan_distance, monitors_from_displays,
    DisplayDescriptor, Monitor, MonitorError, MonitorOrientation,
};

fn monitor(x: i32, y: i32, w: i32, h: i32, ppi: u32, id: u32) -> Monitor {
    Monitor {
        x_pos: x,
        y_pos: y,
        width_px: w,
        height_px: h,
        ppi_milli: ppi as u64 * 1000,
        primary: id == 0,
        display_id: id,
        orientation: if h > w { MonitorOrientation::Vertical } else { MonitorOrientation::Horizontal },
    }
}

#[test]
fn distance_to_same_point_is_zero() {
    let ms = vec![monitor(0, 0, 1920, 1080, 96, 0), monitor(1920, 0, 1920, 1080, 144, 1)];
    assert_eq!(calculate_multi_monitor_distance(100, 200, 100, 200, &ms).unwrap(), 0);
    assert_eq!(calculate_multi_monitor_distance(2000, 50, 2000, 50, &ms).unwrap(), 0);
}

#[test]
fn same_monitor_distance_is_euclidean_over_ppi_and_symmetric() {
    let ms = vec![monitor(0, 0, 1000, 1000, 100, 0)];
    // 30-40-50 triangle: 50 px at 100 PPI is half an inch.
    assert_eq!(calculate_multi_monitor_distance(10, 10, 40, 50, &ms).unwrap(), 500_000);
    assert_eq!(calculate_multi_monitor_distance(40, 50, 10, 10, &ms).unwrap(), 500_000);
}

#[test]
fn equal_density_neighbours_give_straight_line_distance() {
    let ms = vec![monitor(0, 0, 1000, 1000, 100, 0), monitor(1000, 0, 1000, 1000, 100, 1)];
    let d = calculate_multi_monitor_distance(995, 500, 1005, 500, &ms).unwrap();
    let straight = calculate_distance(995, 500, 1005, 500) / 100;
    assert_eq!(straight, 100_000);
    assert!(d >= straight - 2 && d <= straight + 2, "path distance {}", d);
}

#[test]
fn empty_topology_fails_with_no_monitors_found() {
    let ms: Vec<Monitor> = Vec::new();
    assert_eq!(calculate_multi_monitor_distance(0, 0, 10, 10, &ms), Err(MonitorError::NoMonitorsFound));
    assert_eq!(calculate_multi_monitor_distance(5, 5, 5, 5, &ms), Err(MonitorError::NoMonitorsFound));
}

#[test]
fn point_off_every_monitor_fails() {
    let ms = vec![monitor(0, 0, 100, 100, 100, 0)];
    assert_eq!(calculate_multi_monitor_distance(0, 0, 100, 0, &ms), Err(MonitorError::PointOutsideTopology));
    assert_eq!(calculate_multi_monitor_distance(-1, 0, 10, 0, &ms), Err(MonitorError::PointOutsideTopology));
}

#[test]
fn single_monitor_end_to_end_distance() {
    let ms = vec![monitor(0, 0, 1920, 1080, 96, 0)];
    // 960 px at 96 PPI is 10 inches.
    assert_eq!(calculate_multi_monitor_distance(0, 0, 960, 0, &ms).unwrap(), 10_000_000);
}

#[test]
fn two_monitor_end_to_end_distance_crosses_boundary() {
    let ms = vec![monitor(0, 0, 1000, 1000, 100, 0), monitor(1000, 0, 1000, 1000, 200, 1)];
    let path = find_optimal_path(990, 0, 1010, 0, &ms);
    assert!(path.contains(&(1000, 0)));
    // 10 px at 100 PPI plus 10 px at 200 PPI: 0.15 inch.
    assert_eq!(calculate_multi_monitor_distance(990, 0, 1010, 0, &ms).unwrap(), 150_000);
}

#[test]
fn disconnected_topology_falls_back_to_direct_path() {
    let ms = vec![monitor(0, 0, 1000, 1000, 100, 0), monitor(1500, 0, 1000, 1000, 200, 1)];
    let path = find_optimal_path(990, 0, 1510, 0, &ms);
    assert_eq!(path, vec![(990, 0), (1510, 0)]);
    // 520 px measured at the density under the start.
    assert_eq!(calculate_multi_monitor_distance(990, 0, 1510, 0, &ms).unwrap(), 5_200_000);
}

#[test]
fn vertical_neighbours_path_is_valid() {
    let ms = vec![monitor(0, 0, 1000, 800, 100, 0), monitor(200, 800, 600, 600, 100, 1)];
    let path = find_optimal_path(500, 700, 500, 900, &ms);
    assert_eq!(path[0], (500, 700));
    assert_eq!(*path.last().unwrap(), (500, 900));
    for w in path.windows(2) {
        assert!(is_valid_movement(w[0].0, w[0].1, w[1].0, w[1].1, &ms));
    }
    assert_eq!(calculate_multi_monitor_distance(500, 700, 500, 900, &ms).unwrap(), 2_000_000);
}

#[test]
fn movement_across_a_gap_is_invalid() {
    let ms = vec![monitor(0, 0, 100, 100, 100, 0), monitor(200, 0, 100, 100, 100, 1)];
    assert!(!is_valid_movement(50, 50, 250, 50, &ms));
    assert!(is_valid_movement(10, 10, 90, 90, &ms));
    assert!(is_valid_movement(500, 500, 500, 500, &ms));
}

#[test]
fn path_distance_skips_moves_starting_off_screen() {
    let ms = vec![monitor(0, 0, 100, 100, 10, 0)];
    let path = vec![(0, 0), (30, 40), (300, 400), (300, 500)];
    // 50 px at 10 PPI, then 450 px at 10 PPI, then a move from off the monitors.
    assert_eq!(path_distance(&path, &ms), 5_000_000 + 45_000_000);
}

#[test]
fn integer_square_roots() {
    assert_eq!(isqrt(0), 0);
    assert_eq!(isqrt(1), 1);
    assert_eq!(isqrt(15), 3);
    assert_eq!(isqrt(16), 4);
    assert_eq!(isqrt(u128::MAX), u64::MAX);
    assert_eq!(calculate_distance(0, 0, 3, 4), 5_000_000);
    assert_eq!(calculate_distance(0, 0, 1, 1), 1_414_213);
}

#[test]
fn manhattan_distance_sums_extents() {
    assert_eq!(manhattan_distance(0, 0, 3, -4), 7);
    assert_eq!(manhattan_distance(i32::MIN, 0, i32::MAX, 0), u32::MAX as u64);
}

#[test]
fn monitor_lookup_picks_containing_monitor() {
    let ms = vec![monitor(0, 0, 100, 100, 100, 0), monitor(100, 0, 100, 100, 200, 1)];
    assert_eq!(get_monitor_for_coordinates(150, 10, &ms).unwrap().display_id, 1);
    assert_eq!(get_monitor_for_coordinates(99, 99, &ms).unwrap().display_id, 0);
    assert_eq!(get_monitor_for_coordinates(200, 0, &ms).err(), Some(MonitorError::PointOutsideTopology));
}

#[test]
fn monitor_from_display_geometry() {
    let m = Monitor::new(0, 0, 1440, 900, 1800, true, 7).unwrap();
    assert_eq!(m.ppi_milli, 144_000);
    assert_eq!(m.orientation, MonitorOrientation::Horizontal);
    let v = Monitor::new(1440, 0, 900, 1440, 1440, false, 8).unwrap();
    assert_eq!(v.ppi_milli, 72_000);
    assert_eq!(v.orientation, MonitorOrientation::Vertical);
    // 72 * 2880 / 1800 = 115.2 pixels per inch.
    assert_eq!(Monitor::new(0, 0, 2880, 1800, 2880, true, 1).unwrap().ppi_milli, 115_200);
    // 72 / 7 = 10.2857... pixels per inch, rounded up in thousandths.
    assert_eq!(Monitor::new(0, 0, 10, 7, 1, true, 1).unwrap().ppi_milli, 10_286);
    // A display of no width still converts.
    let z = Monitor::new(0, 0, 0, 1080, 2160, false, 2).unwrap();
    assert_eq!((z.width_px, z.ppi_milli), (0, 144_000));
    // A far edge past the i32 range is brought back to it.
    let far = Monitor::new(i32::MAX - 10, 0, 100, 10, 10, false, 3).unwrap();
    assert_eq!(far.width_px, 10);
    assert!(matches!(Monitor::new(0, 0, 100, 0, 100, false, 1), Err(MonitorError::SystemError(_))));
    assert!(matches!(Monitor::new(0, 0, 100, 100, 0, false, 1), Err(MonitorError::SystemError(_))));
}

#[test]
fn empty_monitor_contains_nothing() {
    let ms = vec![monitor(0, 0, 0, 100, 100, 0), monitor(0, 0, 100, 100, 100, 1)];
    assert_eq!(get_monitor_for_coordinates(0, 0, &ms).unwrap().display_id, 1);
    assert_eq!(calculate_multi_monitor_distance(0, 0, 30, 40, &ms), Ok(500_000));
}

#[test]
fn edge_points_are_corners_then_midpoints() {
    let m = monitor(10, 20, 100, 50, 96, 0);
    assert_eq!(
        m.get_edge_points(),
        vec![(10, 20), (110, 20), (10, 70), (110, 70), (60, 20), (60, 70), (10, 45), (110, 45)]
    );
    assert!(m.contains_point(10, 20));
    assert!(!m.contains_point(110, 20));
}

#[test]
fn adjacency_within_tolerance() {
    let a = monitor(0, 0, 100, 100, 100, 0);
    let b = monitor(103, 0, 100, 100, 100, 1);
    let c = monitor(300, 0, 100, 100, 100, 2);
    assert!(are_monitors_adjacent(&a, &b));
    assert!(!are_monitors_adjacent(&a, &c));
}

#[test]
fn samples_truncate_the_exact_point() {
    // The middle sample of (0,5)-(2,4) is (1, 4.5), which truncates to (1, 4).
    let ms = vec![monitor(0, 5, 1, 1, 100, 0), monitor(1, 4, 2, 1, 100, 1)];
    assert!(is_valid_movement(0, 5, 2, 4, &ms));
    // The middle sample of (-2,-5)-(0,-4) is (-1, -4.5), which truncates to (-1, -4).
    let neg = vec![monitor(-2, -5, 1, 1, 100, 0), monitor(-1, -4, 2, 1, 100, 1)];
    assert!(is_valid_movement(-2, -5, 0, -4, &neg));
}

#[test]
fn distance_is_the_same_on_every_call() {
    let ms = vec![monitor(0, 0, 1000, 800, 100, 0), monitor(1000, 0, 1000, 800, 200, 1)];
    let a = calculate_multi_monitor_distance(990, 0, 1010, 0, &ms);
    let b = calculate_multi_monitor_distance(990, 0, 1010, 0, &ms);
    assert_eq!(a, Ok(150_000));
    assert_eq!(a, b);
}

#[test]
fn interior_path_points_are_transition_points() {
    let ms = vec![monitor(0, 0, 1000, 1000, 100, 0), monitor(1000, 0, 1000, 1000, 200, 1)];
    let path = find_optimal_path(990, 0, 1010, 0, &ms);
    let edges: Vec<(i32, i32)> = ms.iter().flat_map(|m| m.get_edge_points()).collect();
    for p in &path[1..path.len() - 1] {
        assert!(edges.contains(p));
    }
}

fn display(x: i32, w: i32, h: i32, pixels_high: u32, id: u32) -> DisplayDescriptor {
    DisplayDescriptor { x_pos: x, y_pos: 0, width_px: w, height_px: h, pixels_high, primary: id == 0, display_id: id }
}

#[test]
fn unusable_displays_are_dropped() {
    let ds = vec![display(0, 1440, 900, 1800, 0), display(1440, 100, 0, 900, 1), display(2000, 800, 600, 600, 2)];
    let ms = monitors_from_displays(&ds).unwrap();
    assert_eq!(ms.len(), 2);
    assert_eq!((ms[0].display_id, ms[0].ppi_milli), (0, 144_000));
    assert_eq!((ms[1].display_id, ms[1].ppi_milli), (2, 72_000));
    assert_eq!(monitors_from_displays(&vec![display(0, 0, 0, 0, 1)]), Err(MonitorError::NoMonitorsFound));
    assert_eq!(monitors_from_displays(&Vec::new()), Err(MonitorError::NoMonitorsFound));
}
