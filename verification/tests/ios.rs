//! iOS devices: the video stream, input, files and the way to a device.

use yard_provider::backend_ios::browse::{
    entry, file_domains, is_listed, list_file_domains, listing, shared_app, staged_path, wiped_path, AfcInfo,
    ChunkStep, IosPath, Pull, AFC_CHUNK,
};
use yard_provider::backend_ios::ddi::{
    before_mount, check_download, developer_mode_is_off, may_attempt_mount, may_mount_in,
    note_mount, part_name, upload_progress, DdiFile, DdiLoader, DdiPayload, LoadEvent, LoadStep,
    MountOutcome, MOUNT_RETRY_BACKOFF,
};
use yard_provider::backend_ios::device::{
    assert_supported, missing_service, parse_usbmuxd_address, pick_usb, Attached, Configured,
    DeviceIdentity,
};
use yard_provider::backend_ios::hevc::{
    codec_string_from_sps, decoder_configuration_record, dimensions_from_sps, is_key_nal, nal_type,
    pack_access_unit, Depacketizer, ParameterSets, DISPLAYSERVICE_NAL_TRAILER, NAL_AP, NAL_CRA,
    NAL_FU, NAL_IDR_W_RADL, NAL_PPS, NAL_SPS, NAL_VPS,
};
use yard_provider::backend_ios::hid::{
    ascii_to_hid, key_input, named_button, orientation_degrees, reports, special_key, text_inputs,
    Input, Orientation, Report, KEY_LEFT_SHIFT, USAGE_PAGE_CONSUMER,
};
use yard_provider::backend_ios::media::{
    call_info, keyframe_request, media_tasks, rtcp_liveness, stream_identity, stream_requests,
    track_sequence, MediaTask, RefreshReason, RtpStats, StreamIdentity, StreamKind, VideoEvent,
    VideoReceiver, FIRST_FRAME_TIMEOUT, KEYFRAME_MIN_INTERVAL, MOTION_IDR_INTERVAL,
    MOTION_THRESHOLD_BPS, REFRESH_HEARTBEAT, SETTLE_QUIET, STALL_TIMEOUT,
};
use yard_provider::backend_ios::report::{
    apps, clipboard_text, info, list_apps_options, listed_apps, ClipboardEntry, ListError,
    ListedApp,
};
use yard_provider::backend_ios::session::{Event, Stage, Supervisor};
use yard_provider::backend_ios::{
    battery_source, charging, level_rule, render_rotation_for, BatteryCache, BatterySource,
    Geometry, IosOptions, LevelRule, BATTERY_TTL,
};
use yard_provider::clock::SECOND;
use yard_provider::files::FileKind;
use yard_provider::property::{readable, section};

fn nal(nal_type: u8, body: &[u8]) -> Vec<u8> {
    let mut nal = vec![nal_type << 1, 0x01];
    nal.extend_from_slice(body);
    nal
}

#[test]
fn single_nal_passes_through() {
    let mut depacketizer = Depacketizer::new();
    let mut out = Vec::new();
    let input = nal(NAL_SPS, b"body");
    depacketizer.push(&input, &mut out);
    assert_eq!(out, vec![input]);
}

#[test]
fn aggregation_packet_splits_into_nals() {
    let first = nal(NAL_VPS, b"vps");
    let second = nal(NAL_PPS, b"pps");

    let mut payload = vec![NAL_AP << 1, 0x01];
    for part in [&first, &second] {
        payload.extend_from_slice(&(part.len() as u16).to_be_bytes());
        payload.extend_from_slice(part);
    }

    let mut out = Vec::new();
    Depacketizer::new().push(&payload, &mut out);
    assert_eq!(out, vec![first, second]);
}

#[test]
fn fragmentation_unit_reassembles_original_header() {
    let mut depacketizer = Depacketizer::new();
    let mut out = Vec::new();

    // Start fragment: FU header carries the real type (IDR_W_RADL).
    depacketizer.push(&[NAL_FU << 1, 0x01, 0x80 | NAL_IDR_W_RADL, b'a'], &mut out);
    assert!(out.is_empty(), "no NAL until the end fragment");

    depacketizer.push(&[NAL_FU << 1, 0x01, 0x40 | NAL_IDR_W_RADL, b'b'], &mut out);
    assert_eq!(out.len(), 1);
    assert_eq!(nal_type(&out[0]), NAL_IDR_W_RADL);
    assert_eq!(&out[0][2..], b"ab");
}

#[test]
fn displayservice_trailer_is_stripped() {
    let mut body = b"slice".to_vec();
    body.extend_from_slice(&DISPLAYSERVICE_NAL_TRAILER);
    let input = nal(NAL_IDR_W_RADL, &body);

    let mut out = Vec::new();
    Depacketizer::new().push(&input, &mut out);
    assert_eq!(&out[0][2..], b"slice");
}

#[test]
fn sequence_gap_drops_the_partial_fragment() {
    let mut depacketizer = Depacketizer::new();
    let mut out = Vec::new();

    depacketizer.push(&[NAL_FU << 1, 0x01, 0x80 | NAL_CRA, b'a'], &mut out);
    depacketizer.reset_fragment();
    // The end fragment now has no start fragment to attach to.
    depacketizer.push(&[NAL_FU << 1, 0x01, 0x40 | NAL_CRA, b'b'], &mut out);
    assert!(out.is_empty(), "never stitches across a gap");
}

#[test]
fn packs_length_prefixed_nalus() {
    let nals = vec![vec![0xAA, 0xBB], vec![0xCC]];
    assert_eq!(
        pack_access_unit(&nals),
        vec![0, 0, 0, 2, 0xAA, 0xBB, 0, 0, 0, 1, 0xCC]
    );
}

/// Main profile, level 4.0, from a real display stream.
fn real_sps(level: u8) -> Vec<u8> {
    let mut sps = vec![NAL_SPS << 1, 0x01];
    sps.extend_from_slice(&[
        0x01, // vps_id(4)=0 | max_sub_layers(3)=0 | nesting(1)=1
        0x01, // profile_space(2)=0 | tier(1)=0 | profile_idc(5)=1
        0x60, 0x00, 0x00, 0x00, // general_profile_compatibility_flags
        0x90, 0x00, 0x00, 0x00, 0x00, 0x00, // constraint indicators
        level,
    ]);
    sps
}

#[test]
fn parses_codec_string_and_hvcc_from_a_real_sps() {
    let sps = real_sps(0x78);

    assert_eq!(codec_string_from_sps(&sps).unwrap(), "hev1.1.6.L120.90");

    let record =
        decoder_configuration_record(&[NAL_VPS << 1, 1], &sps, &[NAL_PPS << 1, 1]).expect("hvcC");
    assert_eq!(record[0], 1, "configurationVersion");
    assert_eq!(record[1], 0x01, "profile_space | tier | profile_idc");
    assert_eq!(record[12], 0x78, "general_level_idc");
    assert_eq!(record[22], 3, "numOfArrays");
}

/// Pack exp-Golomb values into bytes, MSB first.
fn golomb_bytes(values: &[u64]) -> Vec<u8> {
    let mut bits: Vec<u8> = Vec::new();
    for &value in values {
        let coded = value + 1;
        let width = 64 - coded.leading_zeros();
        bits.resize(bits.len() + width as usize - 1, 0);
        for shift in (0..width).rev() {
            bits.push(((coded >> shift) & 1) as u8);
        }
    }
    bits.chunks(8)
        .map(|chunk| chunk.iter().fold(0u8, |byte, bit| (byte << 1) | bit) << (8 - chunk.len()))
        .collect()
}

fn sized_sps() -> Vec<u8> {
    let mut sps = real_sps(0x96);
    // sps_seq_parameter_set_id=0, chroma_format_idc=1, pic_width=1179,
    // pic_height=2556, bit-packed.
    sps.extend_from_slice(&golomb_bytes(&[0, 1, 1179, 2556]));
    sps
}

#[test]
fn reads_frame_size_from_the_sps() {
    assert_eq!(dimensions_from_sps(&sized_sps()), Some((1179, 2556)));
}

#[test]
fn a_truncated_sps_reports_nothing_rather_than_a_wrong_size() {
    let sps = vec![NAL_SPS << 1, 0x01, 0x01, 0x01];
    assert_eq!(dimensions_from_sps(&sps), None);
    assert!(codec_string_from_sps(&sps).is_err());
}

#[test]
fn parameter_sets_are_kept_and_describe_a_decoder_once_complete() {
    let mut sets = ParameterSets::default();
    assert!(sets.observe(&nal(NAL_VPS, b"v")));
    assert!(sets.observe(&sized_sps()));
    assert!(!sets.is_complete());
    assert!(sets.description().is_none());
    assert!(sets.observe(&nal(NAL_PPS, b"p")));
    assert!(!sets.observe(&nal(NAL_CRA, b"slice")));
    assert_eq!(sets.description().unwrap().0, "hev1.1.6.L150.90");
    assert!(is_key_nal(NAL_CRA));
    assert!(!is_key_nal(1));
}

#[test]
fn hid_key_names_are_the_browser_ones() {
    assert_eq!(special_key("Enter"), Some(0x28));
    assert_eq!(special_key("Backspace"), Some(0x2A));
    assert_eq!(special_key("ArrowUp"), Some(0x52));
    // Another vocabulary; nothing should answer to it.
    assert_eq!(special_key("dpad_up"), None);
    assert_eq!(special_key("del"), None);
}

#[test]
fn hardware_buttons_ignore_case() {
    assert_eq!(named_button("Home"), named_button("home"));
    assert_eq!(named_button("VolumeUp"), named_button("volume_up"));
    assert!(named_button("hOmE").is_some());
}

#[test]
fn typing_resolves_case_and_symbols() {
    assert_eq!(ascii_to_hid('a'), Some((0x04, false)));
    assert_eq!(ascii_to_hid('A'), Some((0x04, true)));
    assert_eq!(ascii_to_hid('1'), Some((0x1E, false)));
    assert_eq!(ascii_to_hid('!'), Some((0x1E, true)));
    assert_eq!(ascii_to_hid('0'), Some((0x27, false)));
    assert_eq!(ascii_to_hid(')'), Some((0x27, true)));
    assert_eq!(ascii_to_hid(' '), Some((0x2C, false)));
    assert_eq!(ascii_to_hid('é'), None);
}

#[test]
fn every_printable_character_can_be_typed() {
    for c in ' '..='~' {
        assert!(ascii_to_hid(c).is_some(), "{c}");
    }
    assert_eq!(ascii_to_hid('\n'), ascii_to_hid('\r'));
}

#[test]
fn power_and_lock_are_the_same_button() {
    assert_eq!(named_button("power"), named_button("lock"));
    let (page, usage, hold) = named_button("siri").unwrap();
    assert_eq!((page, usage), (USAGE_PAGE_CONSUMER, 0xCF));
    assert_eq!(hold, SECOND, "Siri needs a long press");
}

#[test]
fn a_shifted_character_is_typed_inside_its_shift() {
    let key = |usage, down| Report::Key { usage, down };
    assert_eq!(
        reports(&Input::Character('A')),
        [
            key(KEY_LEFT_SHIFT, true),
            key(0x04, true),
            key(0x04, false),
            key(KEY_LEFT_SHIFT, false),
        ]
    );
    assert_eq!(
        reports(&Input::Character('a')),
        [key(0x04, true), key(0x04, false)]
    );
    assert!(reports(&Input::Character('é')).is_empty());
    assert_eq!(
        reports(&Input::Contact { x: 1, y: 2 }),
        [Report::Touch {
            contact: true,
            x: 1,
            y: 2
        }]
    );
    assert_eq!(
        text_inputs("hi"),
        [Input::Character('h'), Input::Character('i')]
    );
}

#[test]
fn only_the_down_edge_of_a_button_acts() {
    let home = key_input("Home", true).unwrap();
    assert_eq!(key_input("Home", false), None);
    assert_eq!(
        reports(&home),
        [
            Report::Button {
                page: USAGE_PAGE_CONSUMER,
                usage: 0x40,
                down: true
            },
            Report::Hold(50_000_000),
            Report::Button {
                page: USAGE_PAGE_CONSUMER,
                usage: 0x40,
                down: false
            },
        ]
    );
    assert_eq!(key_input("Enter", true), Some(Input::KeyUsage(0x28)));
    assert_eq!(key_input("nonsense", true), None);
}

#[test]
fn a_device_that_lies_flat_says_nothing_of_its_screen() {
    assert_eq!(orientation_degrees(&Orientation::Portrait), Some(0));
    assert_eq!(orientation_degrees(&Orientation::LandscapeLeft), Some(90));
    assert_eq!(
        orientation_degrees(&Orientation::PortraitUpsideDown),
        Some(180)
    );
    assert_eq!(orientation_degrees(&Orientation::LandscapeRight), Some(270));
    for flat in [
        Orientation::FaceUp,
        Orientation::FaceDown,
        Orientation::Unknown,
    ] {
        assert_eq!(orientation_degrees(&flat), None);
    }
}

#[test]
fn the_two_file_trees_stay_apart_but_navigate_as_one() {
    assert!(matches!(IosPath::parse("/"), IosPath::Root));

    // Media, and its walk back up to the synthetic root.
    assert!(matches!(IosPath::parse("media:/DCIM"), IosPath::Media(p) if p == "/DCIM"));
    assert_eq!(
        IosPath::parent("media:/DCIM/100APPLE").as_deref(),
        Some("media:/DCIM")
    );
    assert_eq!(IosPath::parent("media:/DCIM").as_deref(), Some("media:/"));
    assert_eq!(IosPath::parent("media:/").as_deref(), Some("/"));

    // An app container. The bundle id must survive a path that has its own
    // colons, which is why only the first one splits.
    match IosPath::parse("app:com.example.App:/Documents/Reports") {
        IosPath::App { bundle, path } => {
            assert_eq!(bundle, "com.example.App");
            assert_eq!(path, "/Documents/Reports");
        }
        _ => panic!("an app path did not parse as one"),
    }
    assert_eq!(
        IosPath::parent("app:com.example.App:/Documents/Reports").as_deref(),
        Some("app:com.example.App:/Documents"),
    );
    // Documents is the top of an app tree.
    assert_eq!(
        IosPath::parent("app:com.example.App:/Documents").as_deref(),
        Some("/"),
    );

    // The top has nowhere above it, so the browser hides "..".
    assert_eq!(IosPath::parent("/"), None);
}

#[test]
fn the_viewer_turns_the_picture_back_not_the_same_way_again() {
    assert_eq!(render_rotation_for(0), 0);
    assert_eq!(render_rotation_for(90), 270);
    assert_eq!(render_rotation_for(180), 180);
    assert_eq!(render_rotation_for(270), 90);

    // Applying the orientation and then the render rotation must land back
    // where it started, whichever orientation the device is in.
    for orientation in [0, 90, 180, 270] {
        assert_eq!((orientation + render_rotation_for(orientation)) % 360, 0);
    }
    assert_eq!(render_rotation_for(-90), 90);
}

#[test]
fn options_default_to_the_built_in_display_with_motion_idr_on() {
    let options = IosOptions::parse("udid-1", &serde_json::Map::new()).unwrap();
    assert_eq!(options.udid, "udid-1");
    assert_eq!(options.display_id, 0);
    assert!(options.motion_idr);
}

#[test]
fn lib_a_mistyped_option_is_a_config_error_not_a_silent_default() {
    let mut options = serde_json::Map::new();
    options.insert("motion_idr".into(), serde_json::Value::String("yes".into()));
    assert_eq!(
        IosOptions::parse("udid-1", &options).unwrap_err().message,
        "motion_idr must be a boolean"
    );
    options.insert("display_id".into(), serde_json::Value::Bool(true));
    assert_eq!(
        IosOptions::parse("udid-1", &options).unwrap_err().message,
        "display_id must be an integer"
    );
    options.insert("display_id".into(), serde_json::Value::from(-3i64));
    options.insert("motion_idr".into(), serde_json::Value::Bool(false));
    let parsed = IosOptions::parse("udid-1", &options).unwrap();
    assert_eq!(parsed.display_id, -3);
    assert!(!parsed.motion_idr);
}

fn dict(entries: &[(&str, plist::Value)]) -> plist::Dictionary {
    let mut out = plist::Dictionary::new();
    for (key, value) in entries {
        out.insert((*key).to_owned(), value.clone());
    }
    out
}

#[test]
fn external_power_stands_in_for_a_missing_charging_flag() {
    assert_eq!(
        charging(&dict(&[("ExternalConnected", 1u64.into())])),
        Some(true)
    );
    assert_eq!(
        charging(&dict(&[
            ("IsCharging", false.into()),
            ("ExternalConnected", true.into()),
        ])),
        Some(false)
    );
    assert_eq!(charging(&dict(&[("CycleCount", 53u64.into())])), None);
    assert_eq!(charging(&dict(&[("IsCharging", "yes".into())])), None);
}

#[test]
fn a_level_is_worked_out_from_what_there_is() {
    assert_eq!(level_rule(true, true, false), LevelRule::Ratio);
    assert_eq!(level_rule(true, false, true), LevelRule::Percentage);
    assert_eq!(
        level_rule(true, false, false),
        LevelRule::Unknown,
        "a raw capacity with no maximum is refused"
    );
    assert_eq!(level_rule(false, true, true), LevelRule::Unknown);
}

#[test]
fn an_answer_without_a_level_is_not_one_to_stop_at() {
    let (registry, gauge) = (BatterySource::Registry, BatterySource::GasGauge);
    assert_eq!(battery_source(Some(true), None), registry);
    assert_eq!(battery_source(Some(false), Some(true)), gauge);
    assert_eq!(battery_source(Some(false), Some(false)), registry);
    assert_eq!(battery_source(Some(false), None), registry);
    assert_eq!(battery_source(None, Some(false)), gauge);
    assert_eq!(battery_source(None, None), gauge);
}

#[test]
fn a_battery_reading_is_shared_until_it_is_stale() {
    let mut cache = BatteryCache::new();
    assert_eq!(cache.fresh(BATTERY_TTL, 0), None);
    cache.store(Some(0.5), 100);
    assert_eq!(cache.fresh(BATTERY_TTL, 100), Some(0.5));
    assert_eq!(cache.fresh(BATTERY_TTL, 99 + BATTERY_TTL), Some(0.5));
    assert_eq!(cache.fresh(BATTERY_TTL, 100 + BATTERY_TTL), None);
    assert_eq!(cache.fresh(0, 100), None, "the sampler never takes a stale one");
    cache.store(None, 200);
    assert_eq!(cache.fresh(BATTERY_TTL, 200), None);
}

#[test]
fn orientation_is_unknown_until_the_device_has_said_it() {
    let mut geometry = Geometry::new();
    assert_eq!(geometry.get(), None);
    assert_eq!(geometry.rotation(), None);
    assert_eq!(geometry.announced(), None);
    assert_eq!(geometry.display(), None);
    assert_eq!(geometry.steps_to(180), 1, "an honest single step");

    geometry.set((1179, 2556));
    assert!(!geometry.landed(None));
    assert_eq!(geometry.rotation(), None);
    assert!(geometry.landed(Some(-90)));
    assert_eq!(geometry.rotation(), Some(270));
    assert_eq!(geometry.steps_to(0), 1);
    assert_eq!(geometry.steps_to(180), 3);

    let announced = geometry.announced().unwrap();
    assert_eq!((announced.width, announced.height), (1179, 2556));
    assert_eq!(announced.render_rotation, Some(90));
    assert_eq!(geometry.display().unwrap().render_rotation, Some(90));
    geometry.set_rotation(450);
    assert_eq!(geometry.rotation(), Some(90));
}

#[test]
fn a_failed_mount_is_left_alone_for_the_backoff_window() {
    let now = 1000 * SECOND;
    assert!(may_attempt_mount(None, now));
    assert!(!may_attempt_mount(Some(now), now));
    assert!(!may_attempt_mount(
        Some(now),
        now + MOUNT_RETRY_BACKOFF - SECOND
    ));
    assert!(may_attempt_mount(Some(now), now + MOUNT_RETRY_BACKOFF));
}

#[test]
fn a_mount_is_remembered_by_how_it_came_out() {
    assert_eq!(
        before_mount(true, Some(0), 1),
        Some(MountOutcome::AlreadyMounted)
    );
    assert_eq!(before_mount(false, Some(0), 1), Some(MountOutcome::Skipped));
    assert_eq!(before_mount(false, None, 1), None);
    assert!(may_mount_in(Some(true)));
    assert!(may_mount_in(None));
    assert!(!may_mount_in(Some(false)));
    assert!(developer_mode_is_off().contains("Developer Mode"));
    assert_eq!(note_mount(Some(1), Some(MountOutcome::Mounted), 9), None);
    assert_eq!(note_mount(Some(1), Some(MountOutcome::Skipped), 9), Some(1));
    assert_eq!(note_mount(Some(1), None, 9), Some(9));
}

fn manifest() -> Vec<u8> {
    let mut manifest = plist::Dictionary::new();
    manifest.insert("ProductBuildVersion".into(), "27A5228h".into());
    let mut buffer = Vec::new();
    plist::to_writer_xml(&mut buffer, &manifest).unwrap();
    buffer
}

const FILES: [DdiFile; 3] = [DdiFile::Image, DdiFile::Manifest, DdiFile::TrustCache];

fn body_for(file: DdiFile) -> Vec<u8> {
    match file {
        DdiFile::Image => b"image-bytes".to_vec(),
        DdiFile::Manifest => manifest(),
        DdiFile::TrustCache => b"trust-cache-bytes".to_vec(),
    }
}

/// A host with a cache directory and a mirror.
#[derive(Default)]
struct Host {
    cache: Vec<(DdiFile, Vec<u8>)>,
    unreadable: bool,
    missing_on_mirror: Option<DdiFile>,
    hits: usize,
}

impl Host {
    fn cached(&self, file: DdiFile) -> Option<&Vec<u8>> {
        self.cache
            .iter()
            .find(|(name, _)| *name == file)
            .map(|(_, bytes)| bytes)
    }

    fn payload(&mut self) -> Option<DdiPayload> {
        let mut loader = DdiLoader::new();
        let step = loop {
            let event = match loader.step() {
                LoadStep::Read(_) if self.unreadable => LoadEvent::Failed,
                LoadStep::Read(file) => match self.cached(file) {
                    Some(bytes) => LoadEvent::Found(bytes.clone()),
                    None => LoadEvent::Absent,
                },
                LoadStep::Fetch(file) => {
                    self.hits += 1;
                    if self.missing_on_mirror == Some(file) {
                        LoadEvent::Failed
                    } else {
                        LoadEvent::Found(body_for(file))
                    }
                }
                step => break step,
            };
            loader = loader.on_event(event);
        };
        let payload = loader.into_payload()?;
        if step == LoadStep::Fetched {
            self.cache = vec![
                (DdiFile::Image, payload.image.clone()),
                (DdiFile::Manifest, payload.build_manifest.clone()),
                (DdiFile::TrustCache, payload.trust_cache.clone()),
            ];
        }
        Some(payload)
    }
}

#[test]
fn a_cold_cache_downloads_and_writes_all_three_files() {
    let mut host = Host::default();
    let payload = host.payload().unwrap();
    assert_eq!(payload.image, b"image-bytes");
    assert_eq!(payload.trust_cache, b"trust-cache-bytes");
    assert_eq!(payload.build_version().as_deref(), Some("27A5228h"));
    assert_eq!(host.hits, 3);
    for file in FILES {
        assert_eq!(host.cached(file), Some(&body_for(file)));
    }
}

#[test]
fn a_warm_cache_never_touches_the_network() {
    let mut host = Host {
        cache: FILES.map(|file| (file, body_for(file))).to_vec(),
        ..Host::default()
    };
    let payload = host.payload().unwrap();
    assert_eq!(payload.image, b"image-bytes");
    assert_eq!(host.hits, 0);
}

#[test]
fn a_partial_cache_is_refetched() {
    let mut host = Host {
        cache: vec![(DdiFile::Image, body_for(DdiFile::Image))],
        ..Host::default()
    };
    host.payload().unwrap();
    assert_eq!(host.hits, 3);
}

#[test]
fn an_empty_cached_file_is_refetched_rather_than_mounted() {
    let mut host = Host {
        cache: FILES.map(|file| (file, body_for(file))).to_vec(),
        ..Host::default()
    };
    host.cache[2].1.clear();
    let payload = host.payload().unwrap();
    assert_eq!(payload.trust_cache, b"trust-cache-bytes");
    assert_eq!(host.hits, 3);
}

#[test]
fn a_failed_fetch_caches_nothing() {
    let mut host = Host {
        missing_on_mirror: Some(DdiFile::TrustCache),
        ..Host::default()
    };
    assert!(host.payload().is_none());
    assert_eq!(host.cached(DdiFile::Image), None);
}

#[test]
fn a_cache_that_cannot_be_read_is_an_error() {
    let mut host = Host {
        unreadable: true,
        ..Host::default()
    };
    assert!(host.payload().is_none());
    assert_eq!(host.hits, 0);
}

#[test]
fn a_manifest_that_is_none_names_no_build() {
    let odd = DdiPayload {
        image: b"image-bytes".to_vec(),
        build_manifest: b"not a plist".to_vec(),
        trust_cache: b"trust-cache-bytes".to_vec(),
    };
    assert_eq!(odd.build_version(), None);
}

#[test]
fn a_download_is_checked_before_it_is_kept() {
    let url = DdiFile::TrustCache.url("http://mirror/ddi");
    assert_eq!(url, "http://mirror/ddi/Image.dmg.trustcache");
    assert!(check_download(&url, true, "200 OK", 10).is_ok());
    assert_eq!(
        check_download(&url, false, "404 Not Found", 10).unwrap_err(),
        "fetching http://mirror/ddi/Image.dmg.trustcache: 404 Not Found"
    );
    assert!(check_download(&url, true, "200 OK", 0)
        .unwrap_err()
        .contains("empty body"));
    assert_eq!(part_name(DdiFile::Image.name()), "Image.dmg.part");
    assert_ne!(
        part_name(DdiFile::Image.name()),
        part_name(DdiFile::TrustCache.name())
    );
}

#[test]
fn an_upload_is_reported_by_quarters() {
    let mut reported = 0;
    assert_eq!(upload_progress(10, 100, &mut reported), (10, false));
    assert_eq!(upload_progress(25, 100, &mut reported), (25, true));
    assert_eq!(upload_progress(30, 100, &mut reported), (30, false));
    assert_eq!(upload_progress(100, 100, &mut reported), (100, true));
    assert_eq!(upload_progress(0, 0, &mut reported), (100, false));
}

#[test]
fn rejects_versions_below_the_tunnel_floor() {
    assert!(assert_supported("27.0").is_ok());
    assert!(assert_supported("27.1.1").is_ok());
    assert!(assert_supported("28.0").is_ok());
    assert!(assert_supported("26.1").is_err());
    assert!(assert_supported("17.4").is_err());
    // An unparseable version is a warning, not a hard stop.
    assert!(assert_supported("").is_ok());
    assert!(assert_supported("26.x").is_ok());
    assert!(assert_supported("26").is_err());
}

#[test]
fn reads_libusbmuxds_unix_form_as_a_path_not_a_hostname() {
    for text in ["UNIX:/run/usbmuxd", "unix:/run/usbmuxd", "/run/usbmuxd"] {
        match parse_usbmuxd_address(text, false) {
            Configured::Unix(path) => assert_eq!(path, "/run/usbmuxd"),
            _ => panic!("{text} is a unix socket"),
        }
    }
}

#[test]
fn keeps_telling_a_literal_address_from_a_hostname() {
    match parse_usbmuxd_address("127.0.0.1:27015", true) {
        Configured::Tcp(socket) => assert!(socket.ends_with(":27015")),
        _ => panic!("an ip:port is a TCP address"),
    }
    match parse_usbmuxd_address("host.docker.internal:27015", false) {
        Configured::Host(host) => assert_eq!(host, "host.docker.internal:27015"),
        _ => panic!("a hostname needs resolving"),
    }
}

fn attached(udid: &str, usb: bool) -> Attached {
    Attached {
        udid: udid.to_owned(),
        usb,
    }
}

#[test]
fn takes_the_usb_entry_whichever_order_usbmuxd_listed_it() {
    for devices in [
        vec![attached("A", true), attached("A", false)],
        vec![attached("A", false), attached("A", true)],
    ] {
        let picked = pick_usb(&devices, "A").expect("USB entry is present");
        assert!(devices[picked].usb);
    }
}

#[test]
fn refuses_a_device_offered_only_over_the_network() {
    let err = pick_usb(&[attached("A", false)], "A").unwrap_err();
    assert!(err.message.contains("network only"), "{}", err.message);
}

#[test]
fn ignores_other_devices() {
    assert!(pick_usb(&[attached("B", true)], "A").is_err());
    let devices = [attached("B", true), attached("A", true)];
    let picked = pick_usb(&devices, "A").expect("the requested udid is present");
    assert_eq!(devices[picked].udid, "A");
    assert_eq!(
        pick_usb(&[], "A").unwrap_err().message,
        "usbmuxd has no device A"
    );
}

#[test]
fn a_missing_service_is_named_among_those_offered() {
    let offered = ["b.two".to_owned(), "a.one".to_owned(), "c".to_owned()];
    assert_eq!(
        missing_service("hid", &offered),
        "the device does not offer hid; it offers a.one, b.two, c"
    );
    assert!(missing_service("hid", &[]).ends_with("it offers "));
}

#[test]
fn a_device_without_a_name_goes_by_its_udid() {
    let identity = DeviceIdentity::from_values(
        "udid-1",
        &dict(&[
            ("DeviceName", "".into()),
            ("ProductType", "AppleTV14,1".into()),
            ("ProductVersion", "27.1".into()),
            ("BuildVersion", 3u64.into()),
        ]),
    );
    assert_eq!(identity.name, "udid-1");
    assert_eq!(identity.version, "27.1");
    assert_eq!(identity.build, "", "a number is no text");
    assert_eq!(identity.cpu, "arm64");
    assert!(identity.is_apple_tv());

    let info = info("udid-1", Some("Bench 3".into()), identity, None, Some(false));
    assert_eq!(info.name.as_deref(), Some("Bench 3"));
    assert_eq!(info.model.as_deref(), Some("AppleTV14,1"));
    assert_eq!(info.build_id, None);
    assert_eq!(info.serial.as_deref(), Some("udid-1"));
    assert_eq!(info.battery_state.as_deref(), Some("discharging"));
}

#[test]
fn apps_without_a_bundle_are_passed_over() {
    let app = |bundle: &str, name: &str, removable| ListedApp {
        bundle: bundle.into(),
        name: name.into(),
        version: Some("2.0".into()),
        removable,
    };
    let listed = apps(vec![
        app("com.a", "A", true),
        app("", "nameless", true),
        app("com.b", "", false),
    ]);
    assert_eq!(listed.len(), 2);
    assert_eq!(listed[0].id, "com.a");
    assert_eq!(listed[0].system, Some(false));
    assert_eq!(listed[1].name, None);
    assert_eq!(listed[1].system, Some(true));

    let options = list_apps_options();
    assert_eq!(options.len(), 8);
    assert!(options.contains(&("requireContainerAccess", false)));
    assert!(options.contains(&("includeRemovableApps", true)));
}

#[test]
fn the_clipboard_is_the_first_text_on_it() {
    let entry = |uti: &str, inline: Option<&[u8]>| ClipboardEntry {
        uti: uti.into(),
        inline: inline.map(<[u8]>::to_vec),
    };
    assert_eq!(
        clipboard_text(vec![
            entry("public.png", Some(b"png")),
            entry("public.utf8-plain-text", None),
            entry("public.text", Some(&[0xff, 0xfe])),
            entry("public.utf8-plain-text", Some(b"copied")),
            entry("public.text", Some(b"later")),
        ])
        .as_deref(),
        Some("copied")
    );
    assert_eq!(clipboard_text(Vec::new()), None);
}

#[test]
fn ambiguous_apps_carry_their_bundle_and_names_sort_without_case() {
    let sharing: Vec<(String, String)> = [
        ("Zebra", "com.z"),
        ("My BMW", "com.bmw.b"),
        ("apple", "com.a"),
        ("My BMW", "com.bmw.a"),
        ("Éclair", "com.e"),
    ]
    .into_iter()
    .map(|(name, bundle)| (name.to_owned(), bundle.to_owned()))
    .collect();
    let root = list_file_domains(&sharing);
    assert_eq!(root.path, "/");
    assert_eq!(root.parent, None);
    let names: Vec<_> = root.entries.iter().map(|e| e.name.as_str()).collect();
    assert_eq!(
        names,
        [
            "Media",
            "apple",
            "My BMW (com.bmw.b)",
            "My BMW (com.bmw.a)",
            "Zebra",
            "Éclair",
        ]
    );
    assert_eq!(root.entries[0].path, "media:/");
    assert_eq!(root.entries[1].path, "app:com.a:/Documents");
    assert!(root.entries.iter().all(|e| e.kind == FileKind::Directory));
}

#[test]
fn capital_letters_outside_ascii_are_folded_too() {
    let sharing = [
        ("É".to_owned(), "com.upper".to_owned()),
        ("ê".to_owned(), "com.middle".to_owned()),
        ("è".to_owned(), "com.lower".to_owned()),
    ];
    let root = list_file_domains(&sharing);
    let names: Vec<_> = root.entries[1..].iter().map(|e| e.name.as_str()).collect();
    // è U+00E8, é U+00E9, ê U+00EA.
    assert_eq!(names, ["è", "É", "ê"]);
}

#[test]
fn exactly_the_apps_that_share_files_are_places() {
    let shares = |value: plist::Value| {
        dict(&[
            ("UIFileSharingEnabled", value),
            ("CFBundleName", "Short".into()),
        ])
    };
    assert_eq!(shared_app("com.a", &shares(false.into())), None);
    assert_eq!(shared_app("com.a", &shares(1u64.into())), None);
    assert_eq!(shared_app("com.a", &dict(&[])), None);
    assert_eq!(
        shared_app("com.a", &shares(true.into())),
        Some(("Short".to_owned(), "com.a".to_owned()))
    );
    let mut odd = shares(true.into());
    odd.insert("CFBundleDisplayName".into(), 7u64.into());
    assert_eq!(
        shared_app("com.a", &odd),
        Some(("com.a".to_owned(), "com.a".to_owned())),
        "a display name that is no text does not fall back to the short one"
    );
}

#[test]
fn an_entry_that_cannot_be_read_is_still_listed() {
    let told = |ifmt: &str, size| {
        Some(AfcInfo {
            ifmt: ifmt.into(),
            size,
            modified_at: 12_000,
        })
    };
    let file = entry("media:", "/DCIM", "a.png".into(), told("S_IFREG", 10));
    assert_eq!(file.kind, FileKind::File);
    assert_eq!(file.path, "media:/DCIM/a.png");
    assert_eq!(file.size, Some(10));
    assert_eq!(file.modified_at, Some(12_000));
    let dir = entry("media:", "/", "DCIM".into(), told("S_IFDIR", 96));
    assert_eq!(dir.kind, FileKind::Directory);
    assert_eq!(dir.path, "media:/DCIM");
    assert_eq!(dir.size, None);
    let other = entry("app:com.a:", "/Documents", "x".into(), None);
    assert_eq!(other.kind, FileKind::Other);
    assert_eq!(other.modified_at, None);
    assert!(!is_listed("."));
    assert!(!is_listed(".."));
    assert!(is_listed("..."));

    let whole = listing("media:/DCIM", vec![file]);
    assert_eq!(whole.parent.as_deref(), Some("media:/"));
    assert_eq!(whole.entries.len(), 1);
}

#[test]
fn a_pull_ends_with_its_first_short_chunk() {
    let mut pull = Pull::new();
    assert_eq!(pull.on_chunk(AFC_CHUNK), ChunkStep::Write);
    assert_eq!(pull.on_chunk(10), ChunkStep::WriteLast);
    assert_eq!(pull.on_chunk(0), ChunkStep::Stop);
    assert_eq!(pull.written, AFC_CHUNK as u64 + 10);
    assert_eq!(staged_path("udid-1"), "PublicStaging/udid-1.ipa");
    assert_eq!(wiped_path("//Downloads/x"), "Downloads/x");
}

fn seen(sequence: impl IntoIterator<Item = u16>) -> RtpStats {
    let mut stats = RtpStats::default();
    for seq in sequence {
        stats.packets += 1;
        track_sequence(&mut stats, seq);
    }
    stats
}

#[test]
fn loss_is_measured_from_the_first_sequence_seen() {
    // The device's stream starts at an arbitrary sequence; that offset is not
    // loss.
    let stats = seen(40_000u16..40_010);
    assert_eq!(stats.lost, 0);

    // Skip three, then carry on.
    let stats = seen((40_000u16..40_010).chain(40_013u16..40_016));
    assert_eq!(stats.lost, 3);
}

#[test]
fn sequence_wrap_does_not_read_as_massive_loss() {
    let stats = seen([65_534u16, 65_535, 0, 1]);
    assert_eq!(stats.lost, 0);
    assert_eq!(stats.highest_seq, (1 << 16) | 1, "one cycle, sequence 1");
}

#[test]
fn a_late_straggler_does_not_rewind_the_highest_sequence() {
    let highest = seen([100u16, 101, 102]).highest_seq;
    assert_eq!(seen([100u16, 101, 102, 99]).highest_seq, highest);
}

const IDENTITY: StreamIdentity = StreamIdentity {
    local_ssrc: 0x0102_0304,
    remote_ssrc: 0x0a0b_0c0d,
    rtcp_port: 5000,
};

#[test]
fn the_report_that_keeps_a_stream_alive_is_byte_exact() {
    let stats = seen([7u16, 8, 10]);
    let packet = rtcp_liveness(&IDENTITY, &stats);
    assert_eq!(
        packet,
        [
            0x81, 201, 0, 7, 1, 2, 3, 4, 10, 11, 12, 13, 0, 0, 0, 1, 0, 0, 0, 10, 0, 0, 0, 0, 0, 0,
            0, 0, 0, 0, 0, 0, 0x81, 202, 0, 2, 1, 2, 3, 4, 1, 0, 0, 0,
        ]
    );
    let request = keyframe_request(&IDENTITY, &stats, 9);
    assert_eq!(request[..packet.len()], packet[..]);
    assert_eq!(
        request[packet.len()..],
        [
            0x81, 206, 0, 2, 1, 2, 3, 4, 10, 11, 12, 13, 0x84, 206, 0, 4, 1, 2, 3, 4, 0, 0, 0, 0,
            10, 11, 12, 13, 9, 0, 0, 0,
        ]
    );
}

fn answer(ours: u64, theirs: u64, port: u64) -> plist::Value {
    let config = dict(&[
        ("RemoteSSRC", ours.into()),
        ("LocalSSRC", theirs.into()),
        ("SourcePort", port.into()),
    ]);
    let connection = dict(&[("streamConfig", plist::Value::Dictionary(config))]);
    plist::Value::Dictionary(dict(&[(
        "connection",
        plist::Value::Dictionary(connection),
    )]))
}

#[test]
fn the_ends_of_a_stream_are_read_from_the_devices_answer() {
    assert_eq!(
        stream_identity(&answer(17, 18, 50002)),
        Some(StreamIdentity {
            local_ssrc: 17,
            remote_ssrc: 18,
            rtcp_port: 50002
        })
    );
    assert_eq!(stream_identity(&answer(0, 18, 50002)), None);
    assert_eq!(stream_identity(&plist::Value::Boolean(true)), None);
}

#[test]
fn audio_is_asked_for_first_and_video_is_needed() {
    let requests = stream_requests(3);
    assert_eq!(requests[0].kind, StreamKind::Audio);
    assert_eq!(requests[0].display_id, None);
    assert_eq!(requests[1].kind, StreamKind::Video);
    assert_eq!(requests[1].display_id, Some(3));
    assert_eq!(
        requests.iter().map(|r| r.sender_port).collect::<Vec<_>>(),
        [50000, 50001]
    );
    assert_eq!(call_info().device_type, "Mac17,7");

    assert_eq!(
        media_tasks(Some(IDENTITY), Some(IDENTITY)).unwrap(),
        [
            MediaTask::Receive(IDENTITY),
            MediaTask::Liveness(StreamKind::Video, IDENTITY),
            MediaTask::Liveness(StreamKind::Audio, IDENTITY),
            MediaTask::Watchdog,
        ]
    );
    assert_eq!(media_tasks(Some(IDENTITY), None).unwrap().len(), 3);
    assert!(media_tasks(None, Some(IDENTITY)).is_err());
}

fn rtp(seq: u16, marker: bool, payload: &[u8]) -> Vec<u8> {
    let mut packet = vec![0x80, 96 | if marker { 0x80 } else { 0 }];
    packet.extend_from_slice(&seq.to_be_bytes());
    packet.extend_from_slice(&90_000u32.to_be_bytes());
    packet.extend_from_slice(&IDENTITY.remote_ssrc.to_be_bytes());
    packet.extend_from_slice(payload);
    packet
}

#[test]
fn a_stream_is_announced_and_passed_on_picture_by_picture() {
    let mut receiver = VideoReceiver::new(IDENTITY, false, 0);
    let mut events = Vec::new();
    for (seq, payload) in [nal(NAL_VPS, b"v"), sized_sps(), nal(NAL_PPS, b"p")]
        .iter()
        .enumerate()
    {
        events.extend(receiver.on_datagram(&rtp(seq as u16, false, payload), 1));
    }
    let slice = nal(NAL_IDR_W_RADL, b"slice");
    events.extend(receiver.on_datagram(&rtp(3, true, &slice), 2));

    assert!(events.iter().any(|event| matches!(
        event,
        VideoEvent::Geometry {
            width: 1179,
            height: 2556
        }
    )));
    assert!(events.iter().any(
        |event| matches!(event, VideoEvent::Codec(codec) if codec.codec == "hev1.1.6.L150.90")
    ));
    let unit = events
        .iter()
        .find_map(|event| match event {
            VideoEvent::Unit(unit) => Some(unit),
            _ => None,
        })
        .expect("the picture is passed on");
    assert!(unit.is_key);
    assert_eq!(
        unit.data,
        pack_access_unit(&[nal(NAL_VPS, b"v"), sized_sps(), nal(NAL_PPS, b"p"), slice])
    );
    assert_eq!(receiver.stats().packets, 4);
    assert_eq!(receiver.stats().lost, 0);
}

#[test]
fn a_picture_with_a_gap_is_dropped_whole_and_a_fresh_one_asked_for() {
    let mut receiver = VideoReceiver::new(IDENTITY, false, 0);
    let later = 10 * KEYFRAME_MIN_INTERVAL;
    for (seq, payload) in [nal(NAL_VPS, b"v"), sized_sps(), nal(NAL_PPS, b"p")]
        .iter()
        .enumerate()
    {
        receiver.on_datagram(&rtp(seq as u16, false, payload), later);
    }
    let mut events =
        receiver.on_datagram(&rtp(3, false, &nal(NAL_IDR_W_RADL, b"one")), later);
    events.extend(receiver.on_datagram(&rtp(5, true, &nal(1, b"three")), later));
    assert!(!events
        .iter()
        .any(|event| matches!(event, VideoEvent::Unit(_))));
    assert!(events.iter().any(|event| matches!(
        event,
        VideoEvent::Rtcp {
            reason: RefreshReason::AuDrop,
            ..
        }
    )));
    assert!(receiver.stats().lost > 0);
}

#[test]
fn a_stream_that_says_nothing_is_stalled() {
    let mut receiver = VideoReceiver::new(IDENTITY, false, 0);
    assert!(!receiver.is_stalled(FIRST_FRAME_TIMEOUT));
    assert!(receiver.is_stalled(FIRST_FRAME_TIMEOUT + 1));
    for (seq, payload) in [nal(NAL_VPS, b"v"), sized_sps(), nal(NAL_PPS, b"p")]
        .iter()
        .enumerate()
    {
        receiver.on_datagram(&rtp(seq as u16, false, payload), 1);
    }
    receiver.on_datagram(&rtp(3, true, &nal(NAL_IDR_W_RADL, b"slice")), 1);
    assert!(!receiver.is_stalled(1 + STALL_TIMEOUT));
    assert!(receiver.is_stalled(2 + STALL_TIMEOUT));
    assert!(
        receiver.on_datagram(&[0x81, 201, 0, 1, 0, 0, 0, 0], 5).is_empty(),
        "control packets are not video"
    );
    assert!(receiver.on_datagram(&[1, 2, 3], 5).is_empty());
}

#[test]
fn viewers_cannot_flood_the_device_with_requests() {
    let mut receiver = VideoReceiver::new(IDENTITY, false, 0);
    let start = 10 * KEYFRAME_MIN_INTERVAL;
    assert_eq!(receiver.on_keyframe_requested(start).len(), 1);
    assert!(receiver.on_keyframe_requested(start + 1).is_empty());
    assert_eq!(
        receiver
            .on_keyframe_requested(start + KEYFRAME_MIN_INTERVAL)
            .len(),
        1
    );
}

#[test]
fn a_session_is_built_in_order_and_starts_over_when_it_drops() {
    let mut supervisor = Supervisor::new(true);
    let mut stages = vec![supervisor.stage];
    for _ in 0..2 {
        stages.push(supervisor.on_event(Event::Done));
    }
    assert_eq!(
        supervisor.on_event(Event::MountTried(None, 77)),
        Stage::OpenTunnel,
        "a device with nothing mounted may still do"
    );
    assert_eq!(supervisor.ddi_failed_at, Some(77));
    for _ in 0..4 {
        assert!(!supervisor.ready);
        stages.push(supervisor.on_event(Event::Done));
    }
    assert_eq!(
        stages,
        [
            Stage::Locate,
            Stage::CheckVersion,
            Stage::Mount,
            Stage::StartMedia,
            Stage::Settle,
            Stage::ConnectHid,
            Stage::Serve,
        ]
    );
    assert!(supervisor.ready);
    assert_eq!(supervisor.generation, 1);
    assert_eq!(supervisor.on_event(Event::Failed), Stage::CloseTunnel);
    assert_eq!(supervisor.on_event(Event::Done), Stage::Withdraw);
    assert_eq!(supervisor.on_event(Event::Done), Stage::Rest);
    assert!(!supervisor.ready);
    assert_eq!(supervisor.on_event(Event::Done), Stage::Locate);

    let mut plain = Supervisor::new(false);
    plain.on_event(Event::Done);
    assert_eq!(plain.on_event(Event::Done), Stage::OpenTunnel);
    assert_eq!(plain.on_event(Event::Failed), Stage::Withdraw);
}

fn refresh_reason(events: &[VideoEvent]) -> Option<RefreshReason> {
    events.iter().find_map(|event| match event {
        VideoEvent::Rtcp { reason, .. } => Some(*reason),
        _ => None,
    })
}

#[test]
fn a_settled_screen_is_refreshed_once_it_has_been_quiet() {
    let mut receiver = VideoReceiver::new(IDENTITY, true, 0);
    assert!(receiver.on_tick(SECOND).is_empty());
    assert!(receiver.on_tick(2 * SECOND).is_empty());
    let events = receiver.on_tick(SECOND + SETTLE_QUIET);
    assert_eq!(refresh_reason(&events), Some(RefreshReason::Settled));
    assert!(receiver.on_tick(3 * SECOND).is_empty(), "one was just asked for");
    let again = receiver.on_tick(SECOND + 2 * SETTLE_QUIET);
    assert_eq!(refresh_reason(&again), Some(RefreshReason::Settled));

    let mut silent = VideoReceiver::new(IDENTITY, true, 0);
    let backstop = silent.on_tick(REFRESH_HEARTBEAT);
    assert_eq!(refresh_reason(&backstop), Some(RefreshReason::Heartbeat));

    let mut off = VideoReceiver::new(IDENTITY, false, 0);
    assert!(off.on_tick(REFRESH_HEARTBEAT).is_empty());
    assert!(off.on_tick(2 * REFRESH_HEARTBEAT).is_empty());
}

#[test]
fn a_moving_screen_is_refreshed_while_it_moves() {
    let mut receiver = VideoReceiver::new(IDENTITY, true, 0);
    for (seq, payload) in [nal(NAL_VPS, b"v"), sized_sps(), nal(NAL_PPS, b"p")]
        .iter()
        .enumerate()
    {
        receiver.on_datagram(&rtp(seq as u16, false, payload), 1);
    }
    receiver.on_datagram(&rtp(3, true, &nal(NAL_IDR_W_RADL, b"slice")), 1);

    let moving = nal(1, &vec![7; MOTION_THRESHOLD_BPS as usize]);
    receiver.on_datagram(&rtp(4, true, &moving), SECOND);
    assert!(receiver.on_tick(SECOND).is_empty(), "it has only begun to move");
    receiver.on_datagram(&rtp(5, true, &moving), 2 * SECOND);
    let events = receiver.on_tick(2 * SECOND);
    assert_eq!(refresh_reason(&events), Some(RefreshReason::Motion));
    assert!(receiver.on_tick(2 * SECOND + MOTION_IDR_INTERVAL / 2).is_empty());
}

#[test]
fn a_battery_reading_is_served_until_it_is_stale() {
    let mut cache: BatteryCache<u8> = BatteryCache::new();
    assert_eq!(cache.fresh(BATTERY_TTL, SECOND), None);
    cache.store(Some(80), SECOND);
    assert_eq!(cache.fresh(BATTERY_TTL, SECOND + BATTERY_TTL - 1), Some(80));
    assert_eq!(cache.fresh(BATTERY_TTL, SECOND + BATTERY_TTL), None);
    assert_eq!(cache.fresh(0, SECOND), None);
    cache.store(None, 2 * SECOND);
    assert_eq!(cache.fresh(BATTERY_TTL, 2 * SECOND), None);
}

#[test]
fn an_answer_may_be_nested_under_its_own_name() {
    let mut gauge = plist::Dictionary::new();
    gauge.insert("IsCharging".into(), plist::Value::Boolean(true));
    let mut nested = plist::Dictionary::new();
    nested.insert("IsCharging".into(), plist::Value::Boolean(false));
    nested.insert("GasGauge".into(), plist::Value::Dictionary(gauge.clone()));
    assert_eq!(charging(section(&nested, "GasGauge")), Some(true));
    assert_eq!(charging(section(&gauge, "GasGauge")), Some(true));

    let mut odd = plist::Dictionary::new();
    odd.insert("GasGauge".into(), plist::Value::String("none".into()));
    odd.insert("ExternalConnected".into(), plist::Value::from(1u64));
    assert_eq!(charging(section(&odd, "GasGauge")), Some(true));
}

#[test]
fn a_stream_answer_without_its_config_says_nothing() {
    let mut answer = plist::Dictionary::new();
    assert_eq!(stream_identity(&plist::Value::Dictionary(answer.clone())), None);
    answer.insert("connection".into(), plist::Value::Dictionary(plist::Dictionary::new()));
    assert_eq!(stream_identity(&plist::Value::Dictionary(answer.clone())), None);
    let mut connection = plist::Dictionary::new();
    connection.insert("streamConfig".into(), plist::Value::String("none".into()));
    answer.insert("connection".into(), plist::Value::Dictionary(connection));
    assert_eq!(stream_identity(&plist::Value::Dictionary(answer)), None);
}

#[test]
fn only_apps_that_share_files_are_places() {
    let shares = |name: &str| {
        let mut info = plist::Dictionary::new();
        info.insert("UIFileSharingEnabled".into(), plist::Value::Boolean(true));
        info.insert("CFBundleDisplayName".into(), plist::Value::String(name.into()));
        plist::Value::Dictionary(info)
    };
    let apps = [
        ("com.b".to_string(), shares("beta")),
        ("com.none".to_string(), plist::Value::Dictionary(plist::Dictionary::new())),
        ("com.odd".to_string(), plist::Value::Boolean(true)),
        ("com.a".to_string(), shares("Alpha")),
    ];
    let root = file_domains(&apps);
    let names: Vec<&str> = root.entries.iter().map(|e| e.name.as_str()).collect();
    assert_eq!(names, ["Media", "Alpha", "beta"]);
    assert_eq!(root.entries[1].path, "app:com.a:/Documents");
}

#[test]
fn escape_bytes_come_out_again() {
    let sps = sized_sps();
    let mut escaped = sps[..2].to_vec();
    let mut zeros = 0;
    for &byte in &sps[2..] {
        if zeros >= 2 && byte <= 3 {
            escaped.push(3);
            zeros = 0;
        }
        escaped.push(byte);
        zeros = if byte == 0 { zeros + 1 } else { 0 };
    }
    assert!(escaped.len() > sps.len(), "there is something to escape");
    assert_eq!(dimensions_from_sps(&escaped), Some((1179, 2556)));
    assert_eq!(
        codec_string_from_sps(&escaped).unwrap(),
        codec_string_from_sps(&sps).unwrap()
    );
}

#[test]
fn a_cut_set_gives_no_wrong_size() {
    let sps = sized_sps();
    let whole = dimensions_from_sps(&sps).unwrap();
    for n in 2..sps.len() {
        let size = dimensions_from_sps(&sps[..n]);
        assert!(size.is_none() || size == Some(whole), "cut to {n}");
    }
}

#[test]
fn what_an_rtp_packet_announces_is_not_payload() {
    let feed = |packet: &[u8]| {
        let mut receiver = VideoReceiver::new(IDENTITY, false, 0);
        for (seq, payload) in [nal(NAL_VPS, b"v"), sized_sps(), nal(NAL_PPS, b"p")]
            .iter()
            .enumerate()
        {
            receiver.on_datagram(&rtp(seq as u16, false, payload), 1);
        }
        receiver
            .on_datagram(packet, 2)
            .into_iter()
            .find_map(|event| match event {
                VideoEvent::Unit(unit) => Some(unit.data),
                _ => None,
            })
    };
    let slice = nal(NAL_IDR_W_RADL, b"slice");
    let plain = rtp(3, true, &slice);
    let expected = feed(&plain);
    assert!(expected.is_some());

    // One source, an extension of one word, and three bytes of padding.
    let mut full = plain[..12].to_vec();
    full[0] = 0x80 | 0x20 | 0x10 | 1;
    full.extend_from_slice(&[9; 4]);
    full.extend_from_slice(&[0, 0, 0, 1, 8, 8, 8, 8]);
    full.extend_from_slice(&slice);
    full.extend_from_slice(&[0, 0, 3]);
    assert_eq!(feed(&full), expected);

    let mut unpadded = full.clone();
    *unpadded.last_mut().unwrap() = 0;
    assert_eq!(feed(&unpadded), None, "padding counts itself");
    let mut overlong = full.clone();
    *overlong.last_mut().unwrap() = 200;
    assert_eq!(feed(&overlong), None);
    assert_eq!(feed(&full[..14]), None, "a source is cut off");
    assert_eq!(feed(&full[..22]), None, "the extension is cut off");
    let mut other = plain.clone();
    other[0] = 0x40;
    assert_eq!(feed(&other), None, "another version");
}

#[test]
fn one_bad_entry_fails_the_list_of_apps() {
    let app = |bundle: &str| ListedApp {
        bundle: bundle.into(),
        name: "App".into(),
        version: None,
        removable: true,
    };
    let listed = listed_apps(Some(vec![Some(app("a")), Some(app("b"))])).unwrap();
    let bundles: Vec<&str> = listed.iter().map(|app| app.bundle.as_str()).collect();
    assert_eq!(bundles, ["a", "b"]);
    assert_eq!(
        listed_apps(Some(vec![Some(app("a")), None])).unwrap_err(),
        ListError::BadEntry
    );
    assert_eq!(listed_apps(None).unwrap_err(), ListError::NotAnArray);
    assert_eq!(
        ListError::NotAnArray.message(),
        "list apps result was not an array"
    );
    assert_eq!(ListError::BadEntry.message(), "failed to parse app list entry");
}

fn dated_manifest(date: &str) -> Vec<u8> {
    format!(
        "<?xml version=\"1.0\"?><plist><dict><key>ProductBuildVersion</key>\
         <string>27A5228h</string><key>When</key>{date}</dict></plist>"
    )
    .into_bytes()
}

fn build_in(manifest: Vec<u8>) -> Option<String> {
    let payload = DdiPayload {
        image: vec![1],
        build_manifest: manifest,
        trust_cache: vec![1],
    };
    payload.build_version()
}

#[test]
fn a_manifest_with_dates_is_read() {
    for date in [
        "<date>2026-05-01T10:00:00Z</date>",
        "<date>0000-01-01T00:00:00+01:00</date>",
        "<date>8999-12-31T23:59:59-23:59</date>",
        "<string>no:dates</string>",
        "<string>&lt;date></string>",
    ] {
        let manifest = dated_manifest(date);
        assert!(readable(&manifest), "{date}");
        assert_eq!(build_in(manifest).as_deref(), Some("27A5228h"), "{date}");
    }

    let mut values = plist::Dictionary::new();
    values.insert("ProductBuildVersion".into(), "27A5228h".into());
    let when = std::time::SystemTime::UNIX_EPOCH;
    values.insert("When".into(), plist::Value::Date(when.into()));
    let mut binary = Vec::new();
    plist::Value::Dictionary(values)
        .to_writer_binary(&mut binary)
        .unwrap();
    assert!(readable(&binary));
    assert_eq!(build_in(binary).as_deref(), Some("27A5228h"));
}

#[test]
fn a_date_that_cannot_be_told_in_utc_is_not_read() {
    for date in [
        "<date>9999-12-31T23:59:59-01:00</date>",
        "<date >9999-12-31T23:59:59-01:00</date>",
        "<x:date>9999-12-31T23:59:59-01:00</x:date>",
        "<date>&#57;999-12-31T23:59:59-01:00</date>",
        "<date><!-- -->9999-12-31T23:59:59-01:00</date>",
        "<date>9999-12-31Z<!-- -->23:59:59-01:00</date>",
    ] {
        let manifest = dated_manifest(date);
        assert!(!readable(&manifest), "{date}");
        assert_eq!(build_in(manifest), None, "{date}");
    }
}
