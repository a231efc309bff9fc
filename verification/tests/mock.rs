//! The synthetic device, and what every backend shares.

use yard_provider::backend_mock::{
    battery, codec, files_root, list_files, pull_file, screenshot, MockBackend, MockError,
    ScreenFault, Synthesizer, BATTERY_FULL, BATTERY_HALF_CYCLE, GOP, MEMORY_TOTAL,
};
use yard_provider::clock::SECOND;
use yard_provider::device::Platform;
use yard_provider::files::{join_path, parent_of, FileKind};
use yard_provider::order::{is_less, order_of};
use yard_provider::provider::{device_name, is_secure_base, mock_platform};
use yard_provider::text::{
    chars_of, is_white_char, parse_signed, parse_unsigned, string_of, trimmed,
};

fn android() -> MockBackend {
    MockBackend::new("mock-android-1".into(), Platform::Android, "Mock Pixel".into())
}

#[test]
fn the_control_plane_and_the_exporter_agree_on_the_battery() {
    let backend = android();
    let elapsed = 11 * 60 * SECOND;

    let info = backend.info(elapsed).unwrap();
    let metrics = backend.metrics(elapsed, 0, false, false).unwrap();

    assert_eq!(
        info.battery_state.as_deref() == Some("charging"),
        metrics.battery_charging
    );
    assert_eq!(battery(elapsed).0, metrics.battery_level);
}

#[test]
fn the_battery_drains_then_charges() {
    let backend = android();
    let share = |level: u64| level as f64 / BATTERY_FULL as f64;

    let draining = backend.metrics(600 * SECOND, 0, false, false).unwrap();
    assert!(!draining.battery_charging);
    assert!((0.55..0.65).contains(&share(draining.battery_level)));

    let charging = backend.metrics(1800 * SECOND, 0, false, false).unwrap();
    assert!(charging.battery_charging);

    assert_eq!(share(battery(0).0), 1.0);
    assert_eq!(share(battery(BATTERY_HALF_CYCLE).0), 0.2);
    assert_eq!(battery(2 * BATTERY_HALF_CYCLE), battery(0));
}

#[test]
fn only_matching_processes_are_reported() {
    let backend = android();

    let none = backend.metrics(0, 0, false, false).unwrap();
    assert!(none.apps.is_empty());

    let filtered = backend.metrics(0, 0, false, true).unwrap();
    let names: Vec<_> = filtered.apps.iter().map(|a| a.0).collect();
    assert_eq!(names, vec!["com.example.demo.player"]);
    assert_eq!(filtered.apps[0].1, 320 * 1024 * 1024);
}

#[test]
fn the_ios_mock_reports_battery_but_no_cpu_or_memory() {
    let backend = MockBackend::new("mock-ios-1".into(), Platform::Ios, "Mock iPhone".into());
    let metrics = backend.metrics(0, 0, false, true).unwrap();

    assert!(metrics.battery_level > 0);
    assert!(!metrics.has_cpu);
    assert!(metrics.memory.is_none());
    assert!(metrics.apps.is_empty());
}

#[test]
fn an_unhealthy_mock_fails_rather_than_inventing_numbers() {
    let mut backend = android();
    backend.state.healthy = false;

    assert!(backend.metrics(0, 0, false, false).is_err());
    assert!(matches!(
        backend.info(0),
        Err(MockError::Unavailable(message)) if message == "mock marked unhealthy"
    ));
    backend.state.restart();
    assert!(backend.info(0).is_ok());
}

#[test]
fn memory_cannot_exceed_what_there_is() {
    let memory = |available| {
        android()
            .metrics(0, available, false, false)
            .unwrap()
            .memory
            .unwrap()
    };
    assert_eq!(memory(1000).available, Some(1000));
    assert_eq!(memory(1000).free, Some(500));
    assert_eq!(memory(u64::MAX).available, Some(MEMORY_TOTAL));
    assert_eq!(memory(0).total, MEMORY_TOTAL);
}

#[test]
fn a_rotated_device_reports_swapped_dimensions() {
    let mut backend = android();
    assert_eq!(backend.stream_size(), (1080, 2400));
    backend.state.rotate(-90);
    assert_eq!(backend.state.rotation, 270);
    assert_eq!(backend.stream_size(), (2400, 1080));
    backend.state.rotate(540);
    assert_eq!(backend.state.rotation, 180);
    assert_eq!(backend.stream_size(), (1080, 2400));
    let display = backend.info(0).unwrap().display.unwrap();
    assert_eq!(display.rotation, Some(180));
    assert_eq!(display.density, Some(480));
}

#[test]
fn a_stream_has_a_key_frame_in_every_group_and_on_request() {
    let mut source = Synthesizer::new();
    let mut keys = Vec::new();
    for n in 0..2 * GOP {
        let unit = source.next_unit(n == 7);
        let length = u32::from_be_bytes(unit.data[..4].try_into().unwrap()) as usize;
        assert_eq!(length, unit.data.len() - 4);
        assert_eq!(length, if unit.is_key { 512 } else { 96 });
        assert!(unit.data[4..].iter().all(|byte| *byte == n as u8));
        if unit.is_key {
            keys.push(n);
        }
    }
    assert_eq!(keys, [0, 7, 30]);
    let mut old = Synthesizer {
        counter: u64::MAX,
    };
    old.next_unit(false);
    assert_eq!(old.counter, 0);
    assert_eq!(codec(Platform::Android).codec, "avc1.640028");
    assert_eq!(codec(Platform::Ios).codec, "hev1.1.6.L93.B0");
}

#[test]
fn apps_come_and_go() {
    let mut state = android().state;
    state.install(Some("upload-42-app.apk"));
    assert_eq!(state.installed[2].id, "mock.app.apk");
    state.install(None);
    assert_eq!(state.installed[3].id, "mock.com.example.installed");
    assert!(state.launch("mock.app.apk").is_ok());
    assert!(state.uninstall("mock.app.apk").is_ok());
    assert!(matches!(
        state.uninstall("mock.app.apk"),
        Err(MockError::Failed(message)) if message == "mock.app.apk is not installed"
    ));
    assert!(state.launch("mock.app.apk").is_err());
    assert_eq!(state.installed.len(), 3);

    assert!(state.clear_app_data("com.example.app").is_ok());
    assert_eq!(state.cleared, ["com.example.app"]);
    assert!(state.clear_app_data("nobody").is_err());
    state.no_clear_app_data = true;
    assert!(matches!(
        state.clear_app_data("com.example.app"),
        Err(MockError::Unsupported("clearing app data"))
    ));
}

#[test]
fn a_reset_screen_is_upright_and_empty() {
    let mut state = android().state;
    state.rotate(90);
    state.clipboard_set("secret");
    state.screen_fault = Some(ScreenFault::Fails);
    assert!(matches!(state.reset_screen(), Err(MockError::Failed(_))));
    state.screen_fault = Some(ScreenFault::Hangs);
    assert!(matches!(state.reset_screen(), Err(MockError::Hangs)));
    assert_eq!(state.clipboard.as_deref(), Some("secret"));
    state.screen_fault = None;
    assert!(state.reset_screen().is_ok());
    assert_eq!(state.rotation, 0);
    assert_eq!(state.clipboard, None);
    state.wipe_paths(vec!["/a".into(), "/b".into()]);
    state.wipe_paths(vec!["/c".into()]);
    assert_eq!(state.wiped, ["/a", "/b", "/c"]);
    state.reboot();
    assert_eq!(state.reboots, 1);
}

#[test]
fn only_android_can_be_debugged_from_afar() {
    let mut state = android().state;
    assert_eq!(state.remote_debug_port(), None);
    assert_eq!(state.remote_debug(Platform::Android).unwrap(), 15037);
    assert_eq!(state.remote_debug_port(), Some(15037));
    state.remote_debug_stop();
    assert_eq!(state.remote_debug_port(), None);
    assert!(matches!(
        state.remote_debug(Platform::Ios),
        Err(MockError::Unsupported("remote debugging"))
    ));
}

#[test]
fn the_synthetic_files_can_be_browsed_and_pulled() {
    let root = list_files(&format!("{}/", files_root())).unwrap();
    assert_eq!(root.path, "/sdcard");
    assert_eq!(root.parent, None);
    let names: Vec<_> = root.entries.iter().map(|e| e.name.as_str()).collect();
    assert_eq!(names, ["DCIM", "Download"]);

    let inner = list_files("/sdcard/DCIM").unwrap();
    assert_eq!(inner.parent.as_deref(), Some("/sdcard"));
    assert_eq!(inner.entries[0].kind, FileKind::File);
    assert_eq!(inner.entries[0].size, Some(screenshot().len() as i64));
    assert_eq!(
        pull_file("/sdcard/Download/notes.txt").unwrap(),
        b"a synthetic file, from a synthetic device\n"
    );
    assert_eq!(
        pull_file("/sdcard/DCIM").unwrap_err(),
        "/sdcard/DCIM: no such file"
    );
    assert_eq!(
        list_files("/sdcard/Music").unwrap_err(),
        "/sdcard/Music: no such directory"
    );
    assert_eq!(&screenshot()[1..4], b"PNG");
}

#[test]
fn a_platform_is_taken_from_the_settings() {
    let mut options = serde_json::Map::new();
    assert_eq!(mock_platform(&options), Platform::Ios);
    options.insert(
        "platform".into(),
        serde_json::Value::String("android".into()),
    );
    assert_eq!(mock_platform(&options), Platform::Android);
    options.insert("platform".into(), serde_json::Value::Bool(true));
    assert_eq!(mock_platform(&options), Platform::Ios);
    assert_eq!(device_name(None, "udid"), "udid");
    assert_eq!(device_name(Some("x".into()), "udid"), "x");
}

#[test]
fn a_public_address_is_secure_over_https_or_at_home() {
    assert!(is_secure_base("https://farm.example"));
    assert!(is_secure_base("http://localhost:8080"));
    assert!(is_secure_base("http://127.0.0.1"));
    assert!(!is_secure_base("http://farm.example"));
    assert!(!is_secure_base("see https://farm.example"));
}

#[test]
fn white_space_is_what_the_standard_library_takes_for_it() {
    for code in 0..=0x10_ffffu32 {
        if let Some(c) = char::from_u32(code) {
            assert_eq!(is_white_char(c), c.is_whitespace(), "{code:#x}");
        }
    }
    let chars = chars_of(" \t x\u{a0} ");
    assert_eq!(string_of(trimmed(&chars)), " \t x\u{a0} ".trim());
}

#[test]
fn numbers_are_read_as_the_standard_library_reads_them() {
    for text in [
        "", "0", "7", "+7", "-7", "-", "+", "007", "4294967295", "4294967296", "1 ", "x", "-0",
        "9223372036854775807", "9223372036854775808", "-9223372036854775808",
        "-9223372036854775809",
    ] {
        let chars = chars_of(text);
        assert_eq!(
            parse_unsigned(&chars, 10, u32::MAX as u64),
            text.parse::<u32>().ok().map(u64::from),
            "{text}"
        );
        assert_eq!(parse_signed(&chars), text.parse::<i64>().ok(), "{text}");
        assert_eq!(
            parse_unsigned(&chars, 16, u64::MAX),
            u64::from_str_radix(text, 16).ok(),
            "{text}"
        );
    }
}

#[test]
fn texts_are_ordered_as_the_standard_library_orders_them() {
    let texts = ["b", "", "a", "ab", "é", "Z", "a", "\u{ffff}", "\u{10000}"];
    let keys: Vec<Vec<char>> = texts.iter().map(|text| chars_of(text)).collect();
    for (a, left) in keys.iter().enumerate() {
        for (b, right) in keys.iter().enumerate() {
            assert_eq!(is_less(left, right), texts[a] < texts[b]);
        }
    }
    let mut expected: Vec<usize> = (0..texts.len()).collect();
    expected.sort_by_key(|at| texts[*at]);
    assert_eq!(order_of(&keys), expected);
}

#[test]
fn an_entry_lies_in_its_directory() {
    assert_eq!(join_path("/sdcard", "a"), "/sdcard/a");
    assert_eq!(join_path("/", "a"), "/a");
    assert_eq!(parent_of("/sdcard/a").as_deref(), Some("/sdcard"));
    assert_eq!(parent_of("/a").as_deref(), Some("/"));
    assert_eq!(parent_of("/"), None);
    assert_eq!(parent_of("a"), None);
}
