use kweeb_logger::config::Config;
use kweeb_logger::device::get_or_create_device_id;
use kweeb_logger::macos::MacOSApp;
use kweeb_logger::menubar::MenuMetrics;
use kweeb_logger::metrics::TotalMetrics;
use std::sync::atomic::Ordering;

#[test]
fn default_config_has_no_mirror() {
    let c = Config::default();
    assert!(!c.has_supabase_config());
    assert_eq!(c.database.db_type, "");
}

#[test]
fn environment_turns_mirror_on() {
    let mut c = Config::default();
    c.apply_env_overrides(Some(String::from("https://example.test")), None);
    assert!(c.supabase.enabled);
    assert!(!c.has_supabase_config());
    c.apply_env_overrides(None, Some(String::from("key")));
    assert!(c.has_supabase_config());
    assert_eq!(c.supabase.url.as_deref(), Some("https://example.test"));
}

#[test]
fn mirror_needs_enabled_flag() {
    let mut c = Config::default();
    c.supabase.url = Some(String::from("u"));
    c.supabase.api_key = Some(String::from("k"));
    assert!(!c.has_supabase_config());
    c.apply_env_overrides(None, None);
    assert!(!c.has_supabase_config());
}

#[test]
fn stored_device_id_is_reused() {
    let (id, created) = get_or_create_device_id(Some(String::from("abc")), [7; 16]);
    assert_eq!(id, "abc");
    assert!(!created);
}

#[test]
fn missing_device_id_is_generated() {
    let (a, created) = get_or_create_device_id(None, [0x5a; 16]);
    let (b, _) = get_or_create_device_id(None, [0xa5; 16]);
    assert!(created);
    assert_eq!(a.len(), 36);
    assert_eq!(a.matches('-').count(), 4);
    for (i, c) in a.chars().enumerate() {
        if [8, 13, 18, 23].contains(&i) {
            assert_eq!(c, '-');
        } else {
            assert!(c.is_ascii_digit() || ('a'..='f').contains(&c));
        }
    }
    assert_eq!(a.chars().nth(14), Some('4'));
    assert!(['8', '9', 'a', 'b'].contains(&a.chars().nth(19).unwrap()));
    assert_ne!(a, b);
}

#[test]
fn running_handle_is_shared() {
    let app = MacOSApp::new();
    let h1 = app.get_running_handle();
    let h2 = app.get_running_handle();
    assert!(h1.load(Ordering::SeqCst));
    h1.store(false, Ordering::SeqCst);
    assert!(!h2.load(Ordering::SeqCst));
}

#[test]
fn menu_shows_totals() {
    let t = TotalMetrics {
        total_keypresses: 1,
        total_mouse_clicks: 2,
        total_mouse_distance_in: 3,
        total_mouse_distance_mi: 4,
        total_scroll_steps: 5,
    };
    assert_eq!(MenuMetrics::from_totals(&t), MenuMetrics::new(1, 2, 3, 4, 5));
}

#[test]
fn generated_device_id_is_the_uuid_of_the_bytes() {
    let (zero, _) = get_or_create_device_id(None, [0; 16]);
    assert_eq!(zero, "00000000-0000-4000-8000-000000000000");
    let (ones, _) = get_or_create_device_id(None, [0xff; 16]);
    assert_eq!(ones, "ffffffff-ffff-4fff-bfff-ffffffffffff");
    let bytes = [0x12, 0x34, 0x56, 0x78, 0x9a, 0xbc, 0xde, 0xf0, 0x12, 0x34, 0x56, 0x78, 0x9a, 0xbc, 0xde, 0xf0];
    let (mixed, _) = get_or_create_device_id(None, bytes);
    assert_eq!(mixed, "12345678-9abc-4ef0-9234-56789abcdef0");
}
