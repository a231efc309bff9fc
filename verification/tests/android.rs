//! Android devices: the adb server's protocol, the screen, and what the device
//! says of itself.

use std::collections::HashMap;

use yard_provider::backend_android::adb::{
    fail_message, is_back, list_request, parse_devices, parse_getprop, parse_version,
    payload_length, pull_request, push, push_reply, request, status, Adb, Listing, ListReader,
    PullReader, Pulling, PushReply, Status, SyncDirEntry, SYNC_CHUNK, reverse_remove_service,
    reverse_service, shell_service, tcp_service, tcpip_service, transport_service,
};
use yard_provider::backend_android::bridge::{
    build_banner, features_service, no_port_left, PortSearch, SearchStep,
};
use yard_provider::backend_android::h264::{
    nal_type, split_annex_b, to_length_prefixed, ParameterSets, NAL_PPS, NAL_SPS,
};
use yard_provider::backend_android::metrics::{
    assemble_apps, battery_temperature_tenths, meminfo_pss_kb, parse_meminfo, parse_meminfo_pss,
    pid_stat_command, pid_stat_fields, proc_stat_fields, split_sections, system_batch,
    thermal_readings,
};
use yard_provider::backend_android::scrcpy::{
    back_or_screen_on, control_message, device_message, get_clipboard, keycode, read_device_message,
    read_handshake, read_packet_header, request_keyframe, rotate_device, server_command,
    session_id, set_clipboard, socket_name, text, touch, touch_action, PumpEvent, ScrcpyOptions,
    VideoPump,
};
use yard_provider::backend_android::{
    battery_fields, default_adb_server, device, keycode_for, listening_port, parse_battery_state,
    parse_density, parse_rotation, parse_wm_size, rotation_steps, staging_suffix, AndroidOptions,
};
use yard_provider::clock::{attempt, Attempt};
use yard_provider::device::{Display, Platform};
use yard_provider::files::FileKind;
use yard_provider::install::InstallStep;
use yard_provider::pointer::{Pointer, PointerAction, CONTACT_MAX};

#[test]
fn parses_devices_with_and_without_extras() {
    let devices = parse_devices(
        "R5CY82FT35T            device usb:1048576X product:pa2qxeea model:SM_S936B device:pa2q\n\
         emulator-5554          device product:sdk_gphone64 model:sdk_gphone64_arm64\n\
         0123456789ABCDEF       unauthorized usb:1048577X\n",
    );

    assert_eq!(devices.len(), 3);
    assert_eq!(devices[0].serial, "R5CY82FT35T");
    assert_eq!(devices[0].state, "device");
    // Underscores are adb's escaping of spaces in the model name.
    assert_eq!(devices[0].model.as_deref(), Some("SM S936B"));
    assert!(devices[0].is_usable());

    // Present but undrivable: it answers nothing until the user taps "allow",
    // so it must not be offered as a device.
    assert_eq!(devices[2].state, "unauthorized");
    assert!(!devices[2].is_usable());
    assert_eq!(devices[2].model, None);

    assert!(is_back(&devices, "R5CY82FT35T"));
    assert!(!is_back(&devices, "0123456789ABCDEF"));
    assert!(!is_back(&devices, "somebody else"));
}

#[test]
fn an_empty_device_list_is_not_an_error() {
    assert!(parse_devices("").is_empty());
    assert!(parse_devices("\n").is_empty());
}

#[test]
fn parses_getprop_dumps() {
    let props = parse_getprop(
        "[ro.build.version.release]: [15]\n\
         [ro.build.version.sdk]: [35]\n\
         [ro.product.model]: [SM-S936B]\n\
         [persist.sys.locale]: []\n",
    );

    assert_eq!(props.get("ro.build.version.sdk").unwrap(), "35");
    assert_eq!(props.get("ro.product.model").unwrap(), "SM-S936B");
    // An empty value is a real answer, not a missing key.
    assert_eq!(props.get("persist.sys.locale").unwrap(), "");
    assert_eq!(props.get("nonsense"), None);
}

fn dent(mode: u32, size: u32, mtime: u32, name: &str) -> Vec<u8> {
    let mut out = b"DENT".to_vec();
    out.extend_from_slice(&mode.to_le_bytes());
    out.extend_from_slice(&size.to_le_bytes());
    out.extend_from_slice(&mtime.to_le_bytes());
    out.extend_from_slice(&(name.len() as u32).to_le_bytes());
    out.extend_from_slice(name.as_bytes());
    out
}

fn list_bytewise(reply: &[u8]) -> Result<Vec<SyncDirEntry>, String> {
    let mut reader = ListReader::new();
    for byte in reply {
        match reader.feed(&[*byte]) {
            Listing::More => {}
            Listing::Done => return Ok(reader.into_entries()),
            Listing::Failed(message) => return Err(message),
            Listing::Unexpected(id) => return Err(format!("unexpected {id:#x}")),
        }
    }
    Err("ended early".into())
}

#[test]
fn list_reads_dents_a_byte_at_a_time_and_drops_dot_entries() {
    let mut reply = Vec::new();
    reply.extend(dent(0o040755, 0, 0, "."));
    reply.extend(dent(0o040755, 0, 0, ".."));
    reply.extend(dent(0o040755, 4096, 1_754_524_800, "Camera"));
    reply.extend(dent(0o100644, 2_489_301, 1_754_524_801, "IMG_0001.jpg"));
    reply.extend(b"DONE");
    reply.extend([0u8; 16]);

    assert_eq!(&list_request("/sdcard/DCIM")[8..], b"/sdcard/DCIM");
    assert_eq!(&list_request("/sdcard/DCIM")[..8], b"LIST\x0c\0\0\0");
    let entries = list_bytewise(&reply).unwrap();

    assert_eq!(entries.len(), 2, "`.` and `..` must not reach the browser");

    assert!(entries[0].is_dir());
    assert_eq!(entries[0].name, "Camera");

    assert!(entries[1].is_file());
    assert_eq!(entries[1].size, 2_489_301);
    assert_eq!(entries[1].mtime, 1_754_524_801);

    let mut whole = ListReader::new();
    assert!(matches!(whole.feed(&reply), Listing::Done));
    assert_eq!(whole.into_entries(), entries);
}

fn fail_reply(message: &[u8]) -> Vec<u8> {
    let mut reply = b"FAIL".to_vec();
    reply.extend_from_slice(&(message.len() as u32).to_le_bytes());
    reply.extend_from_slice(message);
    reply
}

#[test]
fn an_unreadable_directory_surfaces_the_devices_own_message() {
    let err = list_bytewise(&fail_reply(b"Permission denied"))
        .expect_err("an unreadable directory must not read as an empty one");
    assert!(err.contains("Permission denied"), "{err}");
}

fn pull_bytewise(reply: &[u8]) -> Result<Vec<u8>, String> {
    let mut reader = PullReader::new();
    let mut out = Vec::new();
    for byte in reply {
        match reader.feed(&[*byte], &mut out) {
            Pulling::More => {}
            Pulling::Done => return Ok(out),
            Pulling::Failed(message) => return Err(message),
            Pulling::Unexpected(id) => return Err(format!("unexpected {id:#x}")),
        }
    }
    Err("ended early".into())
}

#[test]
fn pull_reassembles_data_chunks_into_the_file() {
    let first = vec![0xABu8; 300];
    let second = vec![0xCDu8; 120];

    let mut reply = b"DATA".to_vec();
    reply.extend_from_slice(&(first.len() as u32).to_le_bytes());
    reply.extend_from_slice(&first);
    reply.extend_from_slice(b"DATA");
    reply.extend_from_slice(&(second.len() as u32).to_le_bytes());
    reply.extend_from_slice(&second);
    // DONE's trailing 4 bytes are an mtime, not a payload.
    reply.extend_from_slice(b"DONE");
    reply.extend_from_slice(&1_754_524_801u32.to_le_bytes());

    assert_eq!(&pull_request("/sdcard/x.bin")[..8], b"RECV\x0d\0\0\0");
    let contents = pull_bytewise(&reply).unwrap();
    assert_eq!(contents.len(), 420);
    assert_eq!(&contents[..300], &first[..]);
    assert_eq!(&contents[300..], &second[..]);

    let mut whole = Vec::new();
    assert!(matches!(
        PullReader::new().feed(&reply, &mut whole),
        Pulling::Done
    ));
    assert_eq!(whole, contents);
}

#[test]
fn a_refused_pull_leaves_an_error_not_a_truncated_file() {
    let err = pull_bytewise(&fail_reply(b"remote object '/data/data/x' does not exist"))
        .expect_err("a refused pull must not look like an empty file");
    assert!(err.contains("does not exist"), "{err}");
}

#[test]
fn a_reply_that_is_none_is_told_apart() {
    assert!(list_bytewise(b"WHATwhatWHATwhatWHAT").unwrap_err().contains("unexpected"));
    assert!(pull_bytewise(b"WHAT\0\0\0\0").unwrap_err().contains("unexpected"));
}

#[test]
fn requests_are_framed_in_hex() {
    assert_eq!(request("host:version"), "000chost:version");
    assert_eq!(payload_length(b"0004"), Some(4));
    assert_eq!(payload_length(b"00fF"), Some(255));
    assert_eq!(payload_length(b"zzzz"), None);
    assert_eq!(parse_version("0029"), Some(41));
    assert_eq!(parse_version("nope"), None);
    assert!(matches!(status(b"OKAY"), Status::Okay));
    assert!(matches!(status(b"FAIL"), Status::Fail));
    assert!(matches!(status(b"HUH?"), Status::Unknown));
    assert_eq!(fail_message(b"no such device"), "no such device");
    assert_eq!(Adb::new("127.0.0.1:5037".into()).server(), "127.0.0.1:5037");
}

#[test]
fn a_push_is_sent_in_chunks_and_closed_with_its_time() {
    let data = vec![7u8; SYNC_CHUNK + 10];
    let out = push("/data/local/tmp/a.apk", &data, 0o644, 99);
    let head = b"/data/local/tmp/a.apk,420";
    assert_eq!(&out[..4], b"SEND");
    assert_eq!(
        u32::from_le_bytes(out[4..8].try_into().unwrap()) as usize,
        head.len()
    );
    assert_eq!(&out[8..8 + head.len()], head);
    let at = 8 + head.len();
    assert_eq!(&out[at..at + 4], b"DATA");
    assert_eq!(
        u32::from_le_bytes(out[at + 4..at + 8].try_into().unwrap()) as usize,
        SYNC_CHUNK
    );
    let tail = &out[out.len() - 8..];
    assert_eq!(&tail[..4], b"DONE");
    assert_eq!(u32::from_le_bytes(tail[4..].try_into().unwrap()), 99);
    assert_eq!(out.len(), at + 8 + SYNC_CHUNK + 8 + 10 + 8);

    assert!(matches!(push_reply(b"OKAY\0\0\0\0"), PushReply::Okay));
    assert!(matches!(
        push_reply(b"FAIL\x05\0\0\0"),
        PushReply::Fail { length: 5 }
    ));
    assert!(matches!(push_reply(b"WHAT\0\0\0\0"), PushReply::Unexpected));
}

/// The real config packet of a phone's encoder.
const CONFIG: &[u8] = &[
    0x00, 0x00, 0x00, 0x01, 0x67, 0x64, 0x00, 0x20, 0xac, 0xb4, 0x0f, 0x01, 0x03, 0xcb, 0xcd, 0x41,
    0x41, 0x81, 0x41, 0xb4, 0x28, 0x4d, 0x40, 0x00, 0x00, 0x00, 0x01, 0x68, 0xee, 0x06, 0xf2, 0xc0,
];

#[test]
fn splits_a_real_config_packet_into_sps_and_pps() {
    let nals = split_annex_b(CONFIG);
    assert_eq!(nals.len(), 2);
    assert_eq!(nal_type(nals[0]), NAL_SPS);
    assert_eq!(nal_type(nals[1]), NAL_PPS);
    // The trailing zero of the second start code must not be swallowed into
    // the first NAL's payload.
    assert_eq!(nals[0].last(), Some(&0x40));
}

#[test]
fn builds_the_codec_string_and_avcc_a_browser_can_configure() {
    let sets = ParameterSets::parse(CONFIG).unwrap();
    // profile_idc 0x64 = High, level_idc 0x20 = 3.2.
    assert_eq!(sets.codec_string().unwrap(), "avc1.640020");

    let avcc = sets.avcc().unwrap();
    assert_eq!(avcc[0], 1, "configurationVersion");
    assert_eq!(&avcc[1..4], &[0x64, 0x00, 0x20]);
    assert_eq!(avcc[4], 0xFF, "4-byte NAL lengths");
    assert_eq!(avcc[5], 0xE1, "one SPS");
    let sps_len = u16::from_be_bytes([avcc[6], avcc[7]]) as usize;
    assert_eq!(&avcc[8..8 + sps_len], sets.sps.as_slice());
    assert_eq!(avcc[8 + sps_len], 1, "one PPS");
}

#[test]
fn rewrites_annex_b_as_length_prefixed_nalus() {
    let framed = to_length_prefixed(CONFIG);
    let sps_len = u32::from_be_bytes(framed[0..4].try_into().unwrap()) as usize;
    assert_eq!(sps_len, 19);
    assert_eq!(framed[4] & 0x1f, NAL_SPS);

    let pps_offset = 4 + sps_len;
    let pps_len = u32::from_be_bytes(framed[pps_offset..pps_offset + 4].try_into().unwrap());
    assert_eq!(pps_len, 5, "68 ee 06 f2 c0");
    assert_eq!(framed.len(), 4 + sps_len + 4 + pps_len as usize);
}

#[test]
fn handles_three_byte_start_codes() {
    let data = [0x00, 0x00, 0x01, 0x65, 0xAA, 0x00, 0x00, 0x01, 0x41, 0xBB];
    let nals = split_annex_b(&data);
    assert_eq!(nals, vec![&[0x65u8, 0xAA][..], &[0x41, 0xBB][..]]);
}

#[test]
fn a_config_packet_missing_a_set_yields_nothing_rather_than_half_a_record() {
    // SPS only: configuring a decoder without the PPS produces a decoder that
    // accepts the config and then fails on the first frame.
    let sps_only = &CONFIG[..23];
    assert!(ParameterSets::parse(sps_only).is_none());
}

#[test]
fn frames_follow_a_codec_that_is_announced_once() {
    let mut pump = VideoPump::new();
    let frame = [0, 0, 0, 1, 0x65, 1, 2, 3];
    assert!(
        pump.pump_video(false, true, &frame).is_none(),
        "nothing can decode this yet"
    );
    match pump.pump_video(true, false, CONFIG) {
        Some(PumpEvent::Codec(codec)) => assert_eq!(codec.codec, "avc1.640020"),
        _ => panic!("the codec is announced"),
    }
    assert!(
        pump.pump_video(true, false, CONFIG).is_none(),
        "an unchanged codec is not announced again"
    );
    match pump.pump_video(false, true, &frame) {
        Some(PumpEvent::Unit(unit)) => {
            assert!(unit.is_key);
            assert_eq!(unit.data, [0, 0, 0, 4, 0x65, 1, 2, 3]);
        }
        _ => panic!("the frame is passed on"),
    }
}

#[test]
fn the_override_resolution_wins_over_the_panel() {
    // What a phone set to a lower resolution renders is the override, and touch
    // coordinates scaled to the panel would be wrong.
    let output = "Physical size: 1440x3120\nOverride size: 1080x2340\n";
    assert_eq!(parse_wm_size(output), Some((1080, 2340)));

    let plain = "Physical size: 1080x2400\n";
    assert_eq!(parse_wm_size(plain), Some((1080, 2400)));
    assert_eq!(parse_wm_size(""), None);
}

/// The first value that is a number, as a caller reads it.
fn number(dump: &str, name: &str) -> Option<f64> {
    battery_fields(dump, name)
        .iter()
        .find_map(|value| value.parse::<f64>().ok())
}

#[test]
fn reads_density_and_battery() {
    assert_eq!(parse_density("Physical density: 450\n"), Some(450));

    let dump = "Current Battery Service state:\n  level: 87\n  status: 2\n  scale: 100\n";
    // A fraction, not a percentage: the protocol carries 0..1.
    assert_eq!(
        number(dump, "level").unwrap() / number(dump, "scale").unwrap(),
        0.87
    );
    assert_eq!(parse_battery_state(dump).as_deref(), Some("charging"));
}

#[test]
fn battery_fields_are_read_by_their_names() {
    let dump = "  level: 128\n  scale: 255\n  status: 3\n";
    let level = number(dump, "level").unwrap() / number(dump, "scale").unwrap();
    assert!((level - 0.502).abs() < 0.001, "got {level}");
    assert_eq!(parse_battery_state(dump).as_deref(), Some("discharging"));
    assert_eq!(number("  level: 50\n", "scale"), None);
}

#[test]
fn rotation_is_read_in_either_spelling() {
    // Android 12+.
    assert_eq!(
        parse_rotation("  Display: mDisplayId=0\n  mCurrentRotation=ROTATION_90\n"),
        Some(90)
    );
    assert_eq!(parse_rotation("mCurrentRotation=ROTATION_0"), Some(0));
    // Older: a quarter-turn count, not degrees.
    assert_eq!(parse_rotation("  mRotation=3 mLastRotation=0"), Some(270));
    assert_eq!(parse_rotation("nothing here"), None);
}

#[test]
fn rotating_walks_the_delta_not_the_target() {
    // `rotate(0)` from 270 must not take zero steps, or a device already turned
    // could never be turned back.
    assert_eq!(rotation_steps(270, 0), 1);
    assert_eq!(rotation_steps(0, 90), 1);
    assert_eq!(rotation_steps(90, 90), 0);
    assert_eq!(rotation_steps(0, 270), 3);
    assert_eq!(rotation_steps(180, 90), 3);
    for current in [0, 90, 180, 270] {
        for target in [-90, 0, 90, 180, 270, 360] {
            let steps = rotation_steps(current, target);
            assert_eq!((current + 90 * steps - target).rem_euclid(360), 0);
        }
    }
}

#[test]
fn the_home_button_and_the_home_key_are_different_keys() {
    assert_eq!(keycode_for("Home"), Some(3), "KEYCODE_HOME, the button");
    assert_eq!(keycode_for("MoveHome"), Some(122));
    assert_eq!(keycode_for("MoveEnd"), Some(123));
    assert_eq!(keycode_for("End"), None, "the browser sends MoveEnd");
    assert_eq!(keycode_for("Back"), Some(4));
    assert_eq!(keycode_for("AppSwitch"), keycode_for("Recents"));
}

#[test]
fn not_listening_is_spelled_several_ways() {
    assert_eq!(listening_port("5555"), Some(5555));
    // One phone says 0; the docs say -1; a fresh device says nothing.
    assert_eq!(listening_port("0"), None);
    assert_eq!(listening_port("-1"), None);
    assert_eq!(listening_port(""), None);
    assert_eq!(listening_port("\n"), None);
}

#[test]
fn lib_key_names_are_the_browser_ones() {
    assert_eq!(keycode_for("Enter"), Some(66));
    assert_eq!(keycode_for("Backspace"), Some(67));
    assert_eq!(keycode_for("Home"), Some(3));
    // Printable characters go through INJECT_TEXT instead.
    assert_eq!(keycode_for("a"), None);
}

#[test]
fn options_default_without_a_config_block() {
    let options = AndroidOptions::parse("R5CY82FT35T", &serde_json::Map::new()).unwrap();
    assert_eq!(options.adb_server, default_adb_server());
    assert_eq!(options.scrcpy.max_size, ScrcpyOptions::default().max_size);
    assert_eq!(options.serial, "R5CY82FT35T");
}

#[test]
fn a_mistyped_option_is_a_config_error_not_a_silent_default() {
    let mut options = serde_json::Map::new();
    options.insert("max_size".into(), serde_json::Value::String("big".into()));
    assert!(AndroidOptions::parse("serial", &options).is_err());
}

#[test]
fn every_setting_is_read_and_checked() {
    let mut options = serde_json::Map::new();
    options.insert(
        "adb_server".into(),
        serde_json::Value::String("10.0.0.9:5037".into()),
    );
    options.insert("max_size".into(), serde_json::Value::from(720u64));
    options.insert("bit_rate".into(), serde_json::Value::from(2_000_000u64));
    options.insert("max_fps".into(), serde_json::Value::from(15u64));
    let parsed = AndroidOptions::parse("serial", &options).unwrap();
    assert_eq!(parsed.adb_server, "10.0.0.9:5037");
    assert_eq!(parsed.scrcpy.max_size, 720);
    assert_eq!(parsed.scrcpy.bit_rate, 2_000_000);
    assert_eq!(parsed.scrcpy.max_fps, 15);

    for (key, value, complaint) in [
        (
            "adb_server",
            serde_json::Value::from(5037u64),
            "adb_server must be a host:port string",
        ),
        (
            "bit_rate",
            serde_json::Value::from(-1i64),
            "bit_rate must be a positive integer",
        ),
        (
            "max_fps",
            serde_json::Value::Null,
            "max_fps must be a positive integer",
        ),
    ] {
        let mut options = serde_json::Map::new();
        options.insert(key.into(), value);
        assert_eq!(
            AndroidOptions::parse("serial", &options)
                .unwrap_err()
                .message,
            complaint
        );
    }
}

#[test]
fn a_port_that_cannot_be_bound_is_held_and_an_exhausted_pool_ends_the_search() {
    let mut search = PortSearch::new();
    assert_eq!(search.on_claim(Some(7200)), SearchStep::Bind(7200));
    search.on_refused(7200);
    assert_eq!(search.on_claim(Some(7201)), SearchStep::Bind(7201));
    assert_eq!(search.held, [7200]);
    assert_eq!(search.on_claim(None), SearchStep::Exhausted);
    assert!(no_port_left().contains("remote_debug.ports"));
}

#[test]
fn an_attempt_is_repeated_until_its_deadline() {
    assert_eq!(attempt(true, 10, 5), Attempt::Succeeded);
    assert_eq!(attempt(false, 4, 5), Attempt::Again);
    assert_eq!(attempt(false, 5, 5), Attempt::GiveUp);
}

#[test]
fn sections_are_split_on_their_markers() {
    let out = "---stat\ncpu 1 2\n---mem\nMemTotal: 4 kB\n---batt\nlevel: 50\n";
    let sections = split_sections(out);

    assert_eq!(sections.get("stat"), Some("cpu 1 2\n"));
    assert_eq!(sections.get("mem"), Some("MemTotal: 4 kB\n"));
    assert_eq!(sections.get("batt"), Some("level: 50\n"));
    assert_eq!(sections.get("nothing"), None);
}

#[test]
fn an_empty_section_does_not_shift_the_next_one() {
    let sections = split_sections("---ztype\n---ztemp\n---batt\nlevel: 50\n");

    assert_eq!(sections.get("ztype"), Some(""));
    assert_eq!(sections.get("ztemp"), Some(""));
    assert_eq!(sections.get("batt"), Some("level: 50\n"));
}

#[test]
fn the_batch_marks_every_section() {
    for marker in ["---stat", "---mem", "---batt", "---ztype", "---ztemp"] {
        assert!(system_batch().contains(marker), "{marker}");
    }
}

/// Jiffies as seconds, as a caller converts them.
fn seconds(field: &str) -> f64 {
    field.parse::<f64>().unwrap() / 100.0
}

#[test]
fn proc_stat_converts_jiffies_to_seconds() {
    let cpu = proc_stat_fields("cpu  100 200 300 400 500 600 700 800\n").unwrap();

    assert_eq!(seconds(&cpu[0]), 1.0);
    assert_eq!(seconds(&cpu[1]), 2.0);
    assert_eq!(seconds(&cpu[2]), 3.0);
    assert_eq!(seconds(&cpu[3]), 4.0);
    assert_eq!(seconds(&cpu[4]), 5.0);
    assert_eq!(seconds(&cpu[7]), 8.0);
}

#[test]
fn a_short_proc_stat_line_still_parses_what_it_has() {
    let cpu = proc_stat_fields("cpu 100 200 300 400\n").unwrap();

    assert_eq!(seconds(&cpu[0]), 1.0);
    assert_eq!(seconds(&cpu[3]), 4.0);
    assert_eq!(cpu.get(4), None);
}

#[test]
fn a_truncated_proc_stat_line_is_nothing_rather_than_partial() {
    assert!(proc_stat_fields("cpu 100 200\n").is_none());
    assert!(proc_stat_fields("").is_none());
}

#[test]
fn per_core_lines_are_ignored() {
    let cpu = proc_stat_fields("cpu0 999 999 999 999\ncpu 100 200 300 400\n").unwrap();
    assert_eq!(seconds(&cpu[0]), 1.0);
}

#[test]
fn meminfo_converts_kb_to_bytes() {
    let mem = parse_meminfo(
        "MemTotal:        7654321 kB\nMemFree:          123456 kB\nMemAvailable:  3000000 kB\n",
    )
    .unwrap();

    assert_eq!(mem.total, 7654321 * 1024);
    assert_eq!(mem.available, Some(3000000 * 1024));
    assert_eq!(mem.free, Some(123456 * 1024));
}

#[test]
fn a_kernel_without_memavailable_reports_none_rather_than_memfree() {
    let mem = parse_meminfo("MemTotal: 100 kB\nMemFree: 40 kB\n").unwrap();

    assert_eq!(mem.available, None);
    assert_eq!(mem.free, Some(40 * 1024));
}

#[test]
fn battery_temperature_is_tenths_of_a_degree() {
    assert_eq!(
        battery_temperature_tenths("  temperature: 350\n").map(|tenths| tenths as f64 / 10.0),
        Some(35.0)
    );
}

#[test]
fn a_sentinel_battery_temperature_is_no_reading() {
    assert_eq!(battery_temperature_tenths("temperature: -1\n"), None);
    assert_eq!(battery_temperature_tenths("temperature: 0\n"), None);
    assert_eq!(battery_temperature_tenths("level: 50\n"), None);
}

#[test]
fn thermal_zones_are_paired_with_their_readings() {
    let zones = thermal_readings("cpu-therm\nbattery\nskin\n", "45000\n312\n38\n");
    assert_eq!(
        zones,
        [
            ("cpu-therm".to_owned(), "45000".to_owned()),
            ("battery".to_owned(), "312".to_owned()),
            ("skin".to_owned(), "38".to_owned()),
        ]
    );
}

#[test]
fn mismatched_zone_counts_drop_the_whole_set() {
    assert!(thermal_readings("a\nb\nc\n", "45000\n46000\n").is_empty());
    assert!(thermal_readings("", "45000\n").is_empty());
}

#[test]
fn pss_values_are_comma_grouped() {
    let dump = "Total PSS by process:\n\
         \x20   335,544K: com.example.demo.player (pid 1234 / activities)\n\
         \x20   180,224K: com.example.mock.app (pid 5678)\n\
         \x20     1,024K: com.example.demo.player:push (pid 9012)\n\
         \n\
         Total PSS by OOM adjustment:\n\
         \x20   999,999K: should.not.appear (pid 1)\n";

    let parsed = parse_meminfo_pss(dump);

    assert_eq!(parsed.len(), 3);
    assert_eq!(
        parsed[0],
        (1234, "com.example.demo.player".into(), 335_544 * 1024)
    );
    assert_eq!(
        parsed[1],
        (5678, "com.example.mock.app".into(), 180_224 * 1024)
    );
    // A `:push` process stays distinct from its parent.
    assert_eq!(parsed[2].1, "com.example.demo.player:push");
    assert_eq!(meminfo_pss_kb(dump)[0].2, 335_544);
}

#[test]
fn a_missing_pss_section_yields_nothing_rather_than_garbage() {
    assert!(parse_meminfo_pss("Applications Memory Usage (in Kilobytes):\n").is_empty());
}

#[test]
fn a_process_name_with_spaces_and_parens_still_parses() {
    let line = "1234 (com.foo (bar) baz) S 1 1234 0 0 -1 4194304 100 0 0 0 \
                250 130 0 0 20 0 30 0 5000";

    let (pid, utime, stime) = pid_stat_fields(line).unwrap();

    assert_eq!(pid, 1234);
    // utime 250 + stime 130 = 380 jiffies.
    assert_eq!(
        (utime.parse::<f64>().unwrap() + stime.parse::<f64>().unwrap()) / 100.0,
        3.8
    );
}

#[test]
fn a_garbage_pid_stat_line_is_refused() {
    assert!(pid_stat_fields("").is_none());
    assert!(pid_stat_fields("1234 (short) S 1 2 3").is_none());
    assert!(pid_stat_fields("not a stat line at all").is_none());
}

#[test]
fn one_command_reads_every_matched_pid() {
    assert_eq!(
        pid_stat_command(&[12, 34]),
        "cat /proc/12/stat /proc/34/stat 2>/dev/null"
    );
}

#[test]
fn only_matching_processes_are_assembled() {
    let processes = vec![
        (1, "com.example.demo.player".to_owned(), 100),
        (2, "com.example.mock.app".to_owned(), 200),
    ];
    let cpu = HashMap::from([(1, 5.0)]);
    let matches = [true, false];

    let apps = assemble_apps(&processes, &cpu, &matches);

    assert_eq!(apps.len(), 1);
    assert_eq!(apps[0].process, "com.example.demo.player");
    assert_eq!(apps[0].cpu_seconds, Some(5.0));
    assert_eq!(apps[0].pss_bytes, Some(100));
    assert_eq!(device::matched_pids(&processes, &matches), [1]);
}

#[test]
fn a_process_that_died_between_reads_reports_no_cpu() {
    let processes = vec![(1, "com.example.demo.player".to_owned(), 100)];

    let apps = assemble_apps(&processes, &HashMap::<i64, f64>::new(), &[true]);

    assert_eq!(apps[0].cpu_seconds, None);
    assert_eq!(apps[0].pss_bytes, Some(100));
}

#[test]
fn a_touch_is_thirty_two_bytes_in_the_order_the_server_parses() {
    let message = touch(touch_action::DOWN, 7, 100, 200, 472, 1024);
    assert_eq!(message.len(), 32);
    assert_eq!(message[0], control_message::INJECT_TOUCH_EVENT);
    assert_eq!(message[1], touch_action::DOWN);
    assert_eq!(u64::from_be_bytes(message[2..10].try_into().unwrap()), 7);
    assert_eq!(i32::from_be_bytes(message[10..14].try_into().unwrap()), 100);
    assert_eq!(i32::from_be_bytes(message[14..18].try_into().unwrap()), 200);
    assert_eq!(u16::from_be_bytes(message[18..20].try_into().unwrap()), 472);
    assert_eq!(
        u16::from_be_bytes(message[20..22].try_into().unwrap()),
        1024
    );
    assert_eq!(
        u16::from_be_bytes(message[22..24].try_into().unwrap()),
        0xFFFF
    );
}

#[test]
fn a_release_carries_no_pressure() {
    let message = touch(touch_action::UP, 1, 0, 0, 100, 100);
    assert_eq!(u16::from_be_bytes(message[22..24].try_into().unwrap()), 0);
}

#[test]
fn text_is_length_prefixed_utf8() {
    let message = text("hé");
    assert_eq!(message[0], control_message::INJECT_TEXT);
    assert_eq!(u32::from_be_bytes(message[1..5].try_into().unwrap()), 3);
    assert_eq!(&message[5..], "hé".as_bytes());
}

#[test]
fn clipboard_writes_carry_a_sequence_and_a_paste_flag() {
    let message = set_clipboard(42, "hi", false);
    assert_eq!(message[0], control_message::SET_CLIPBOARD);
    assert_eq!(u64::from_be_bytes(message[1..9].try_into().unwrap()), 42);
    assert_eq!(message[9], 0);
    assert_eq!(u32::from_be_bytes(message[10..14].try_into().unwrap()), 2);
    assert_eq!(set_clipboard(42, "hi", true)[9], 1);
}

#[test]
fn a_clipboard_read_does_not_ask_the_app_to_copy_first() {
    assert_eq!(get_clipboard(), vec![control_message::GET_CLIPBOARD, 0]);
}

#[test]
fn the_other_control_messages_are_as_short_as_they_can_be() {
    assert_eq!(request_keyframe(), [control_message::RESET_VIDEO]);
    assert_eq!(rotate_device(), [control_message::ROTATE_DEVICE]);
    assert_eq!(
        back_or_screen_on(touch_action::DOWN),
        [control_message::BACK_OR_SCREEN_ON, touch_action::DOWN]
    );
    let key = keycode(touch_action::UP, 66);
    assert_eq!(key[0], control_message::INJECT_KEYCODE);
    assert_eq!(key[1], touch_action::UP);
    assert_eq!(u32::from_be_bytes(key[2..6].try_into().unwrap()), 66);
}

#[test]
fn the_servers_messages_are_read_as_they_come() {
    let mut reply = vec![device_message::CLIPBOARD];
    reply.extend_from_slice(&5u32.to_be_bytes());
    reply.extend_from_slice(b"hello");
    for n in 0..reply.len() {
        assert!(read_device_message(&reply[..n]).unwrap().is_none());
    }
    let (copied, used) = read_device_message(&reply).unwrap().unwrap();
    assert_eq!(copied.as_deref(), Some("hello"));
    assert_eq!(used, reply.len());

    let header = read_packet_header(&[0x60, 0, 0, 0, 0, 0, 0, 0, 0, 0, 1, 2]);
    assert!(header.is_config);
    assert!(header.is_key);
    assert_eq!(header.size, 258);
    assert!(read_handshake(&[]).unwrap().is_none());
}

#[test]
fn a_session_is_named_by_its_id() {
    let scid = session_id(0x8000_0001);
    assert!(scid <= 0x7fff_ffff, "the server wants a positive id");
    assert!(socket_name(scid).ends_with(&format!("{scid:08x}")));
    let command = server_command(scid, &ScrcpyOptions::default());
    assert!(command.contains(&format!("scid={scid:08x}")), "{command}");
}

#[test]
fn a_banner_carries_the_devices_features() {
    assert_eq!(
        build_banner(Some("shell_v2,cmd".into()), "pa2q\nSM-S936B\n pa2q \n"),
        "device::ro.product.name=pa2q;ro.product.model=SM-S936B;\
         ro.product.device=pa2q;features=shell_v2,cmd"
    );
    assert!(build_banner(None, "").ends_with("features=shell_v2,cmd,stat_v2"));
    assert!(features_service("abc").contains("abc"));
}

#[test]
fn what_the_device_answers_is_understood() {
    assert!(device::is_png(&[
        0x89, 0x50, 0x4e, 0x47, 0x0d, 0x0a, 0x1a, 0x0a, 0
    ]));
    assert!(!device::is_png(b"not a picture"));
    assert!(device::package_outcome("install", "Success\n").is_ok());
    assert!(device::package_outcome("install", "Failure [INSTALL_FAILED]\n").is_err());
    assert!(staging_suffix(7) != staging_suffix(8));
    let apps = device::apps("package:com.example.app\npackage:com.android.settings\n");
    assert_eq!(apps[0].id, "com.example.app");
    assert_eq!(apps.len(), 2);
}

#[test]
fn a_directory_is_listed_with_its_way_up() {
    let entries = [
        SyncDirEntry {
            name: "Camera".into(),
            mode: 0o040755,
            size: 4096,
            mtime: 7,
        },
        SyncDirEntry {
            name: "a.jpg".into(),
            mode: 0o100644,
            size: 12,
            mtime: 9,
        },
    ];
    let listing = device::list_files("/sdcard/DCIM", &entries);
    assert_eq!(listing.path, "/sdcard/DCIM");
    assert_eq!(listing.parent.as_deref(), Some("/sdcard"));
    assert_eq!(listing.entries[0].kind, FileKind::Directory);
    assert_eq!(listing.entries[0].path, "/sdcard/DCIM/Camera");
    assert_eq!(listing.entries[1].kind, FileKind::File);
    assert_eq!(listing.entries[1].size, Some(12));
    assert_eq!(listing.entries[1].modified_at, Some(9000));
}

#[test]
fn a_lost_contact_is_lifted_and_a_stray_move_is_dropped() {
    let mut pointer = Pointer::new(0.5);
    assert!(!pointer.on_event(PointerAction::Move, 0.1, 0.1, 0));
    assert!(pointer.on_event(PointerAction::Down, 0.2, 0.3, 0));
    assert!(pointer.on_event(PointerAction::Move, 0.4, 0.6, 5));
    assert_eq!(pointer.release_if_stale(CONTACT_MAX), None);
    assert_eq!(
        pointer.release_if_stale(CONTACT_MAX + 5),
        Some((0.4, 0.6))
    );
    assert_eq!(pointer.release_if_stale(CONTACT_MAX + 6), None);
    assert!(pointer.on_event(PointerAction::Down, 0.7, 0.8, 10));
    assert_eq!(pointer.lift(f64::NAN, 0.0, false), (0.7, 0.8));
    assert!(!pointer.down);
    assert_eq!(pointer.lift(0.1, 0.2, true), (0.1, 0.2));
}

#[test]
fn services_are_named_as_adb_names_them() {
    assert_eq!(transport_service("R5CY82FT35T"), "host:transport:R5CY82FT35T");
    assert_eq!(shell_service("getprop"), "shell:getprop");
    assert_eq!(tcpip_service(5555), "tcpip:5555");
    assert_eq!(tcp_service(0), "tcp:0");
    assert_eq!(
        reverse_service("localabstract:scrcpy_1", "tcp:7000"),
        "reverse:forward:localabstract:scrcpy_1;tcp:7000"
    );
    assert_eq!(
        reverse_remove_service("localabstract:scrcpy_1"),
        "reverse:killforward:localabstract:scrcpy_1"
    );
}

#[test]
fn commands_are_what_the_device_runs() {
    let staged = device::staged_path("3f");
    assert_eq!(staged, "/data/local/tmp/farm-install-3f.apk");
    assert_eq!(
        device::install_command(&staged),
        "pm install -r -d /data/local/tmp/farm-install-3f.apk"
    );
    assert_eq!(
        device::remove_command(&staged),
        "rm -f /data/local/tmp/farm-install-3f.apk"
    );
    assert_eq!(device::uninstall_command("a.b"), "pm uninstall a.b");
    assert_eq!(device::clear_command("a.b"), "pm clear a.b");
    assert_eq!(
        device::wipe_command("/sdcard/My Files"),
        "rm -rf '/sdcard/My Files'/* '/sdcard/My Files'/.[!.]*"
    );
    assert_eq!(
        device::launch_command("a.b", &["-v".to_string(), "--pct-touch".to_string()]),
        "monkey -p a.b -c android.intent.category.LAUNCHER 1 -v --pct-touch"
    );
    assert_eq!(
        device::launch_command("a.b", &[]),
        "monkey -p a.b -c android.intent.category.LAUNCHER 1 "
    );
}

#[test]
fn what_a_command_said_decides_whether_it_worked() {
    assert_eq!(
        device::package_outcome("install", "Failure [INSTALL_FAILED]\n").unwrap_err(),
        "install failed: Failure [INSTALL_FAILED]"
    );
    assert!(device::wipe_outcome("/sdcard", " \n").is_ok());
    assert!(device::wipe_outcome("/sdcard", "rm: /sdcard/*: No such file or directory\n").is_ok());
    assert_eq!(
        device::wipe_outcome("/system", "rm: Read-only file system\n").unwrap_err(),
        "wiping /system: rm: Read-only file system"
    );
    assert!(device::launch_outcome("a.b", "Events injected: 1\n").is_ok());
    assert_eq!(
        device::launch_outcome("a.b", "** No activities found to run, monkey aborted.\n")
            .unwrap_err(),
        "a.b has no launchable activity"
    );
}

#[test]
fn a_directory_is_listed_without_its_trailing_slash() {
    assert_eq!(device::list_path("/sdcard/DCIM/"), "/sdcard/DCIM");
    assert_eq!(device::list_path("/sdcard"), "/sdcard");
    assert_eq!(device::list_path("/"), "/");
    assert_eq!(device::list_path(""), "/");
}

#[test]
fn a_device_is_described_by_its_properties() {
    let properties = parse_getprop(
        "[ro.product.model]: [SM-S936B]\n[ro.build.version.sdk]: [35]\n\
         [ro.product.brand]: []\n[ro.serialno]: [R5CY82FT35T]\n",
    );
    let display = device::stream_display(472, 1024, Some(90));
    assert_eq!(
        display,
        Display {
            width: 472,
            height: 1024,
            density: None,
            rotation: Some(90),
            render_rotation: Some(0),
        }
    );

    let info = device::info("usb-1", None, &properties, Some(display), "  status: 2\n");
    assert_eq!(info.id, "usb-1");
    assert_eq!(info.platform, Platform::Android);
    assert_eq!(info.name.as_deref(), Some("SM-S936B"), "no name is configured");
    assert_eq!(info.model.as_deref(), Some("SM-S936B"));
    assert_eq!(info.sdk, Some(35));
    assert_eq!(info.serial.as_deref(), Some("R5CY82FT35T"));
    assert_eq!(info.brand, None, "an empty property says nothing");
    assert_eq!(info.manufacturer, None);
    assert_eq!(info.display, Some(display));
    assert_eq!(info.battery_state.as_deref(), Some("charging"));

    let named = device::info("usb-1", Some("bench".into()), &parse_getprop(""), None, "");
    assert_eq!(named.name.as_deref(), Some("bench"));
    assert_eq!(named.serial.as_deref(), Some("usb-1"));
    assert_eq!(named.battery_state, None);
}

#[test]
fn a_panel_says_its_density_where_it_is_known() {
    let panel = device::panel_display(Some((1080, 2340)), "Physical density: 480\n", Some(0));
    assert_eq!(
        panel,
        Some(Display {
            width: 1080,
            height: 2340,
            density: Some(480),
            rotation: Some(0),
            render_rotation: Some(0),
        })
    );
    assert_eq!(
        device::panel_display(Some((1080, 2340)), "", None).unwrap().density,
        None
    );
    assert_eq!(device::panel_display(None, "Physical density: 480\n", None), None);
}

#[test]
fn a_key_is_sent_as_its_keycode() {
    let down = device::key_message("Enter", true).expect("Android has an enter key");
    let up = device::key_message("Enter", false).unwrap();
    assert_eq!(down[0], control_message::INJECT_KEYCODE);
    assert_eq!((down[1], up[1]), (0, 1));
    assert_eq!(
        u32::from_be_bytes(down[2..6].try_into().unwrap()),
        keycode_for("Enter").unwrap()
    );
    assert_eq!(down[2..], up[2..]);
    assert_eq!(down.len(), 14);
    assert_eq!(device::key_message("no such key", true), None);
}

#[test]
fn a_directory_is_shown_without_its_trailing_slash() {
    let entries = [SyncDirEntry {
        name: "DCIM".into(),
        mode: 0o040771,
        size: 0,
        mtime: 2,
    }];
    let listing = device::list_files("/sdcard/", &entries);
    assert_eq!(listing.path, "/sdcard");
    assert_eq!(listing.parent.as_deref(), Some("/"));
    assert_eq!(listing.entries[0].path, "/sdcard/DCIM");
    assert_eq!(listing.entries[0].modified_at, Some(2000));

    let root = device::list_files("//", &entries);
    assert_eq!(root.path, "/");
    assert_eq!(root.parent, None);
    assert_eq!(root.entries[0].path, "/DCIM");
}

#[test]
fn only_the_pss_section_of_a_dump_counts() {
    let section = "Total PSS by process:\n   123,456K: com.example.app (pid 12 / activities)";
    let head = "Applications Memory Usage (in Kilobytes):\n   1K: nobody (pid 1)\n\n";
    let tail = "Total PSS by OOM adjustment:\n   123,456K: com.example.app (pid 12)\n";
    let whole = format!("{head}{section}\n\n{tail}");
    assert_eq!(parse_meminfo_pss(&whole), parse_meminfo_pss(section));
    assert_eq!(
        parse_meminfo_pss(&whole),
        [(12, "com.example.app".to_string(), 123_456 * 1024)]
    );
}

#[test]
fn a_zero_before_a_long_start_code_stays_with_its_unit() {
    let data = [0, 0, 1, 0x65, 7, 0, 0, 0, 0, 1, 0x41, 0];
    assert_eq!(split_annex_b(&data), [&[0x65u8, 7, 0][..], &[0x41, 0][..]]);
}

#[test]
fn a_staged_copy_is_removed_whatever_happened() {
    let steps = |worked: &[bool]| {
        let mut step = InstallStep::Upload;
        let mut steps = vec![step];
        for &worked in worked {
            step = step.after(worked);
            steps.push(step);
        }
        steps
    };
    assert_eq!(
        steps(&[true, true, false]),
        [
            InstallStep::Upload,
            InstallStep::Install,
            InstallStep::Remove { installed: true },
            InstallStep::Done,
        ]
    );
    assert_eq!(
        steps(&[true, false, true]),
        [
            InstallStep::Upload,
            InstallStep::Install,
            InstallStep::Remove { installed: false },
            InstallStep::Failed,
        ]
    );
    assert_eq!(
        steps(&[false, true]),
        [
            InstallStep::Upload,
            InstallStep::Remove { installed: false },
            InstallStep::Failed,
        ]
    );
    assert_eq!(InstallStep::Upload.label(), Some("uploading"));
    assert_eq!(InstallStep::Install.label(), Some("installing"));
    assert_eq!(InstallStep::Remove { installed: true }.label(), None);
    assert_eq!(InstallStep::Done.label(), Some("done"));
    assert_eq!(InstallStep::Failed.label(), None);
}
