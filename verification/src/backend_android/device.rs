//! What is asked of an Android device, and what its answers mean.

use crate::backend_android;
use crate::backend_android::adb;
use crate::backend_android::adb::SyncDirEntry;
use crate::backend_android::scrcpy;
use crate::device;
use crate::device::{AppInfo, DeviceInfo, Display, Platform};
use crate::files;
use crate::files::{FileEntry, FileKind, FileListing};
use crate::table;
use crate::table::Table;
use crate::text;
use crate::wire;
use vstd::prelude::*;
use vstd::string::*;

verus! {

/// The screen of a device that is streaming: the stream's own geometry. What
/// arrives is encoded at the rotated dimensions, so it is the right way up.
pub fn stream_display(width: i64, height: i64, rotation: Option<i64>) -> (display: Display)
    ensures
        display == (Display {
            width,
            height,
            density: None,
            rotation,
            render_rotation: Some(0),
        }),
{
    Display { width, height, density: None, rotation, render_rotation: Some(0) }
}

/// The screen of a device that is not streaming: the panel's size, and what
/// `wm density` printed. Nothing where the size is not known.
pub fn panel_display(size: Option<(i64, i64)>, density_output: &str, rotation: Option<i64>) -> (
    display: Option<Display>)
    ensures
        match (size, display) {
            (None, None) => true,
            (Some((width, height)), Some(display)) => {
                &&& display.width == width
                &&& display.height == height
                &&& display.rotation == rotation
                &&& display.render_rotation == Some(0i64)
                &&& match display.density {
                    Some(density) => backend_android::first_density(text::lines(density_output@))
                        == Some(density as int),
                    None => backend_android::first_density(
                        text::lines(density_output@),
                    ) is None,
                }
            },
            _ => false,
        },
{
    match size {
        Some((width, height)) => Some(
            Display {
                width,
                height,
                density: backend_android::parse_density(density_output),
                rotation,
                render_rotation: Some(0),
            },
        ),
        None => None,
    }
}

/// A property that is there and not empty.
pub open spec fn filled_property(
    properties: Seq<(Seq<char>, Seq<char>)>,
    key: Seq<char>,
) -> Option<Seq<char>> {
    match table::value_of(properties, key) {
        Some(value) if value.len() > 0 => Some(value),
        _ => None,
    }
}

fn property(properties: &Table, key: &str) -> (value: Option<String>)
    ensures
        text::text_in(value) == filled_property(properties@, key@),
{
    match properties.get(key) {
        Some(value) => if value.is_empty() {
            None
        } else {
            Some(value.to_owned())
        },
        None => None,
    }
}

/// One text, or another where it is not there.
pub open spec fn or_else(
    first: Option<Seq<char>>,
    second: Option<Seq<char>>,
) -> Option<Seq<char>> {
    if first is Some {
        first
    } else {
        second
    }
}

/// What is said of an Android device: all of it from one `getprop` dump, its
/// screen and its battery. A configured name wins over the model, and the serial
/// adb knows it by stands in where the device does not give one.
pub open spec fn info_of(
    serial: Seq<char>,
    name: Option<Seq<char>>,
    properties: Seq<(Seq<char>, Seq<char>)>,
    display: Option<Display>,
    battery: Seq<char>,
) -> device::DeviceInfoView {
    let model = filled_property(properties, "ro.product.model"@);
    device::DeviceInfoView {
        id: serial,
        platform: Platform::Android,
        name: or_else(name, model),
        model,
        manufacturer: filled_property(properties, "ro.product.manufacturer"@),
        os_version: filled_property(properties, "ro.build.version.release"@),
        abi: filled_property(properties, "ro.product.cpu.abi"@),
        sdk: match filled_property(properties, "ro.build.version.sdk"@) {
            Some(sdk) => match text::signed_in(sdk) {
                Some(sdk) => Some(sdk as i64),
                None => None,
            },
            None => None,
        },
        serial: or_else(filled_property(properties, "ro.serialno"@), Some(serial)),
        brand: filled_property(properties, "ro.product.brand"@),
        build_id: filled_property(properties, "ro.build.display.id"@),
        security_patch: filled_property(properties, "ro.build.version.security_patch"@),
        abi_list: filled_property(properties, "ro.product.cpu.abilist"@),
        display,
        battery_state: match backend_android::first_status(text::lines(battery)) {
            Some(status) => Some(backend_android::status_text(status)),
            None => None,
        },
    }
}

/// What is said of an Android device.
pub fn info(
    serial: &str,
    name: Option<String>,
    properties: &Table,
    display: Option<Display>,
    battery: &str,
) -> (info: DeviceInfo)
    ensures
        info@ == info_of(serial@, text::text_in(name), properties@, display, battery@),
{
    let sdk = match property(properties, "ro.build.version.sdk") {
        Some(sdk) => text::parse_signed(&text::chars_of(sdk.as_str())),
        None => None,
    };
    let info = DeviceInfo {
        id: serial.to_owned(),
        platform: Platform::Android,
        name: match name {
            Some(name) => Some(name),
            None => property(properties, "ro.product.model"),
        },
        model: property(properties, "ro.product.model"),
        manufacturer: property(properties, "ro.product.manufacturer"),
        os_version: property(properties, "ro.build.version.release"),
        abi: property(properties, "ro.product.cpu.abi"),
        sdk,
        serial: match property(properties, "ro.serialno") {
            Some(number) => Some(number),
            None => Some(serial.to_owned()),
        },
        brand: property(properties, "ro.product.brand"),
        build_id: property(properties, "ro.build.display.id"),
        security_patch: property(properties, "ro.build.version.security_patch"),
        abi_list: property(properties, "ro.product.cpu.abilist"),
        display,
        battery_state: backend_android::parse_battery_state(battery),
    };
    info
}

/// The control message for a key, where Android has one for it.
pub fn key_message(key: &str, down: bool) -> (message: Option<Vec<u8>>)
    ensures
        match message {
            Some(message) => backend_android::keycode_of(key@) is Some && message@ == seq![
                scrcpy::control_message::INJECT_KEYCODE,
                if down {
                    0u8
                } else {
                    1u8
                },
            ] + wire::be32(backend_android::keycode_of(key@)->0) + wire::be32(0) + wire::be32(0),
            None => backend_android::keycode_of(key@) is None,
        },
{
    match backend_android::keycode_for(key) {
        Some(code) => Some(
            scrcpy::keycode(
                if down {
                    0
                } else {
                    1
                },
                code,
            ),
        ),
        None => None,
    }
}

/// Whether a screenshot is a PNG.
pub fn is_png(bytes: &[u8]) -> (png: bool)
    ensures
        png == (bytes@.len() >= 4 && bytes@[0] == 0x89 && bytes@[1] == 0x50 && bytes@[2] == 0x4E
            && bytes@[3] == 0x47),
{
    bytes.len() >= 4 && bytes[0] == 0x89 && bytes[1] == 0x50 && bytes[2] == 0x4E && bytes[3] == 0x47
}

/// The app in one line of `pm list packages`. It carries no label, and resolving
/// one costs a round-trip per app.
pub open spec fn package_in(line: Seq<char>) -> Option<device::AppInfoView> {
    match text::strip_prefix(text::trim(line), "package:"@) {
        Some(id) if id.len() > 0 => Some(
            device::AppInfoView { id, name: None, version: None, system: Some(false) },
        ),
        _ => None,
    }
}

/// The apps in these lines.
pub open spec fn packages_in(lines: Seq<Seq<char>>) -> Seq<device::AppInfoView>
    decreases lines.len(),
{
    if lines.len() == 0 {
        Seq::empty()
    } else {
        let before = packages_in(lines.drop_last());
        match package_in(lines.last()) {
            Some(app) => before.push(app),
            None => before,
        }
    }
}

/// The apps that `pm list packages` lists.
pub fn apps(listing: &str) -> (apps: Vec<AppInfo>)
    ensures
        device::app_views(apps@) == packages_in(text::lines(listing@)),
{
    let chars = text::chars_of(listing);
    let lines = text::lines_of(&chars);
    let ghost all = text::texts(lines@);
    let mut apps: Vec<AppInfo> = Vec::new();
    let mut i: usize = 0;
    assert(all.take(0) =~= Seq::<Seq<char>>::empty());
    assert(device::app_views(apps@) =~= Seq::<device::AppInfoView>::empty());
    while i < lines.len()
        invariant
            i <= lines@.len(),
            all == text::texts(lines@),
            device::app_views(apps@) == packages_in(all.take(i as int)),
        decreases lines@.len() - i,
    {
        let ghost more = all.take(i + 1);
        let ghost before = apps@;
        assert(more.drop_last() =~= all.take(i as int));
        assert(more.last() == lines@[i as int]@);
        match text::after_prefix(text::trimmed(&lines[i]), "package:") {
            Some(id) => {
                if id.len() > 0 {
                    let app = AppInfo {
                        id: text::string_of(id),
                        name: None,
                        version: None,
                        system: Some(false),
                    };
                    let ghost one = app@;
                    apps.push(app);
                    assert(device::app_views(apps@) =~= device::app_views(before).push(one));
                }
            },
            None => {},
        }
        i += 1;
    }
    assert(all.take(i as int) =~= all);
    apps
}

fn command_of(before: &str, argument: &str, after: &str) -> (command: String)
    ensures
        command@ == before@ + argument@ + after@,
{
    let mut out = String::new();
    out.append(before);
    out.append(argument);
    out.append(after);
    assert(out@ =~= before@ + argument@ + after@);
    out
}

/// Where an app to be installed is staged on the device.
pub fn staged_path(suffix: &str) -> (path: String)
    ensures
        path@ == "/data/local/tmp/farm-install-"@ + suffix@ + ".apk"@,
{
    command_of("/data/local/tmp/farm-install-", suffix, ".apk")
}

/// The command that installs a staged app.
pub fn install_command(staged: &str) -> (command: String)
    ensures
        command@ == "pm install -r -d "@ + staged@,
{
    let out = command_of("pm install -r -d ", staged, "");
    proof {
        reveal_strlit("");
        assert("pm install -r -d "@ + staged@ + ""@ =~= "pm install -r -d "@ + staged@);
    }
    out
}

/// The command that removes a staged app. It must go whatever happens: a
/// provider that leaks one per install fills the device.
pub fn remove_command(staged: &str) -> (command: String)
    ensures
        command@ == "rm -f "@ + staged@,
{
    let out = command_of("rm -f ", staged, "");
    proof {
        reveal_strlit("");
        assert("rm -f "@ + staged@ + ""@ =~= "rm -f "@ + staged@);
    }
    out
}

/// The command that uninstalls an app.
pub fn uninstall_command(app_id: &str) -> (command: String)
    ensures
        command@ == "pm uninstall "@ + app_id@,
{
    let out = command_of("pm uninstall ", app_id, "");
    proof {
        reveal_strlit("");
        assert("pm uninstall "@ + app_id@ + ""@ =~= "pm uninstall "@ + app_id@);
    }
    out
}

/// The command that clears an app's data.
pub fn clear_command(app_id: &str) -> (command: String)
    ensures
        command@ == "pm clear "@ + app_id@,
{
    let out = command_of("pm clear ", app_id, "");
    proof {
        reveal_strlit("");
        assert("pm clear "@ + app_id@ + ""@ =~= "pm clear "@ + app_id@);
    }
    out
}

/// What `pm` did: it says so where it succeeded, and otherwise why not.
pub fn package_outcome(what: &str, output: &str) -> (outcome: Result<(), String>)
    ensures
        match outcome {
            Ok(_) => text::contains_text(output@, "Success"@),
            Err(error) => !text::contains_text(output@, "Success"@) && error@ == what@
                + " failed: "@ + text::trim(output@),
        },
{
    let chars = text::chars_of(output);
    if text::holds(&chars, "Success") {
        return Ok(());
    }
    let mut error = String::new();
    error.append(what);
    error.append(" failed: ");
    text::push_chars(&mut error, text::trimmed(&chars));
    assert(error@ =~= what@ + " failed: "@ + text::trim(output@));
    Err(error)
}

/// The command that empties a directory. The contents, not the directory:
/// removing the directory itself leaves apps that expect it writing into
/// nothing. The quoting is what keeps a path with a space from becoming two
/// arguments.
pub fn wipe_command(path: &str) -> (command: String)
    ensures
        command@ == "rm -rf '"@ + path@ + "'/* '"@ + path@ + "'/.[!.]*"@,
{
    let mut out = String::new();
    out.append("rm -rf '");
    out.append(path);
    out.append("'/* '");
    out.append(path);
    out.append("'/.[!.]*");
    assert(out@ =~= "rm -rf '"@ + path@ + "'/* '"@ + path@ + "'/.[!.]*"@);
    out
}

/// What emptying a directory did. A pattern that matches nothing is passed
/// through literally, so "No such file" is the expected case and no failure.
pub fn wipe_outcome(path: &str, output: &str) -> (outcome: Result<(), String>)
    ensures
        ({
            let said = text::trim(output@);
            match outcome {
                Ok(_) => said.len() == 0 || text::contains_text(said, "No such file"@),
                Err(error) => said.len() > 0 && !text::contains_text(said, "No such file"@)
                    && error@ == "wiping "@ + path@ + ": "@ + said,
            }
        }),
{
    let chars = text::chars_of(output);
    let said = text::trimmed(&chars);
    if said.len() == 0 || text::holds(said, "No such file") {
        return Ok(());
    }
    let mut error = String::new();
    error.append("wiping ");
    error.append(path);
    error.append(": ");
    text::push_chars(&mut error, said);
    assert(error@ =~= "wiping "@ + path@ + ": "@ + text::trim(output@));
    Err(error)
}

/// The command that launches an app.
pub fn launch_command(app_id: &str, args: &[String]) -> (command: String)
    ensures
        command@ == "monkey -p "@ + app_id@ + " -c android.intent.category.LAUNCHER 1 "@
            + text::join(text::strings(args@), " "@),
{
    let mut parts: Vec<Vec<char>> = Vec::new();
    let mut i: usize = 0;
    while i < args.len()
        invariant
            i <= args.len(),
            text::texts(parts@) == text::strings(args@).take(i as int),
        decreases args.len() - i,
    {
        let ghost before = parts@;
        parts.push(text::chars_of(args[i].as_str()));
        assert(text::texts(parts@) =~= text::texts(before).push(args@[i as int]@));
        assert(text::strings(args@).take(i + 1) =~= text::strings(args@).take(i as int).push(
            args@[i as int]@,
        ));
        i += 1;
    }
    assert(text::strings(args@).take(i as int) =~= text::strings(args@));
    let mut out = String::new();
    out.append("monkey -p ");
    out.append(app_id);
    out.append(" -c android.intent.category.LAUNCHER 1 ");
    text::push_chars(&mut out, &text::joined(&parts, " "));
    assert(out@ =~= "monkey -p "@ + app_id@ + " -c android.intent.category.LAUNCHER 1 "@
        + text::join(text::strings(args@), " "@));
    out
}

/// What launching an app did.
pub fn launch_outcome(app_id: &str, output: &str) -> (outcome: Result<(), String>)
    ensures
        match outcome {
            Ok(_) => !text::contains_text(output@, "No activities found"@),
            Err(error) => text::contains_text(output@, "No activities found"@) && error@ == app_id@
                + " has no launchable activity"@,
        },
{
    let chars = text::chars_of(output);
    if text::holds(&chars, "No activities found") {
        let mut error = String::new();
        error.append(app_id);
        error.append(" has no launchable activity");
        assert(error@ =~= app_id@ + " has no launchable activity"@);
        return Err(error);
    }
    Ok(())
}

/// The directory that is listed for a path: without slashes at its end, but for
/// the root.
pub open spec fn listed_path(path: Seq<char>) -> Seq<char> {
    let trimmed = text::trim_end_of(path, '/');
    if trimmed.len() == 0 {
        "/"@
    } else {
        trimmed
    }
}

/// The directory that is listed for a path.
pub fn list_path(path: &str) -> (listed: String)
    ensures
        listed@ == listed_path(path@),
{
    let chars = text::chars_of(path);
    let trimmed = text::trimmed_end_of(&chars, '/');
    if trimmed.len() == 0 {
        "/".to_owned()
    } else {
        text::string_of(trimmed)
    }
}

/// A directory entry as the file browser shows it. Times are seconds on the wire
/// and milliseconds here.
pub open spec fn file_of(path: Seq<char>, entry: adb::SyncDirEntryView) -> files::FileEntryView {
    let kind = if entry.mode & adb::S_IFMT == adb::S_IFDIR {
        FileKind::Directory
    } else if entry.mode & adb::S_IFMT == adb::S_IFREG {
        FileKind::File
    } else {
        FileKind::Other
    };
    files::FileEntryView {
        path: files::join_text(path, entry.name),
        name: entry.name,
        kind,
        size: if kind == FileKind::File {
            Some(entry.size as i64)
        } else {
            None
        },
        modified_at: if entry.mtime > 0 {
            Some((entry.mtime * 1000) as i64)
        } else {
            None
        },
    }
}

/// One directory, as the file browser shows it. It goes by the directory that was
/// listed, so slashes at the end of the path do not matter.
pub fn list_files(path: &str, entries: &[SyncDirEntry]) -> (listing: FileListing)
    ensures
        listing.path@ == listed_path(path@),
        text::text_in(listing.parent) == files::parent_text(listed_path(path@)),
        files::file_views(listing.entries@) == adb::entry_views(entries@).map_values(
            |entry: adb::SyncDirEntryView| file_of(listed_path(path@), entry),
        ),
{
    let path = list_path(path);
    let path = path.as_str();
    let ghost show = |entry: adb::SyncDirEntryView| file_of(path@, entry);
    let ghost goal = adb::entry_views(entries@).map_values(show);
    let mut out: Vec<FileEntry> = Vec::new();
    let mut i: usize = 0;
    while i < entries.len()
        invariant
            i <= entries.len(),
            show == |entry: adb::SyncDirEntryView| file_of(path@, entry),
            goal == adb::entry_views(entries@).map_values(show),
            files::file_views(out@) == goal.take(i as int),
        decreases entries.len() - i,
    {
        let ghost before = out@;
        let entry = &entries[i];
        let kind = if entry.is_dir() {
            FileKind::Directory
        } else if entry.is_file() {
            FileKind::File
        } else {
            FileKind::Other
        };
        let file = FileEntry {
            path: files::join_path(path, entry.name.as_str()),
            name: entry.name.clone(),
            kind,
            size: if entry.is_file() {
                Some(entry.size as i64)
            } else {
                None
            },
            modified_at: if entry.mtime > 0 {
                Some(entry.mtime as i64 * 1000)
            } else {
                None
            },
        };
        let ghost one = file@;
        proof {
            adb::law_an_entry_is_one_kind_of_thing(entry.mode);
        }
        assert(one == file_of(path@, entry@));
        out.push(file);
        assert(files::file_views(out@) =~= files::file_views(before).push(one));
        assert(goal[i as int] == show(entries@[i as int]@));
        assert(goal.take(i + 1) =~= goal.take(i as int).push(goal[i as int]));
        i += 1;
    }
    assert(goal.take(i as int) =~= goal);
    FileListing { path: path.to_owned(), parent: files::parent_of(path), entries: out }
}

/// The pids of the first processes that matched.
pub open spec fn pids_of(processes: Seq<(i64, String, u64)>, matches: Seq<bool>) -> Seq<i64>
    decreases processes.len(),
{
    if processes.len() == 0 {
        Seq::empty()
    } else {
        let before = pids_of(processes.drop_last(), matches);
        if matches[processes.len() - 1] {
            before.push(processes.last().0)
        } else {
            before
        }
    }
}

/// The pids of the processes whose CPU time is to be read.
pub fn matched_pids(processes: &[(i64, String, u64)], matches: &[bool]) -> (pids: Vec<i64>)
    requires
        matches@.len() == processes@.len(),
    ensures
        pids@ == pids_of(processes@, matches@),
{
    let mut pids: Vec<i64> = Vec::new();
    let mut i: usize = 0;
    assert(processes@.take(0) =~= Seq::<(i64, String, u64)>::empty());
    while i < processes.len()
        invariant
            i <= processes.len(),
            matches@.len() == processes@.len(),
            pids@ == pids_of(processes@.take(i as int), matches@),
        decreases processes.len() - i,
    {
        assert(processes@.take(i + 1).drop_last() =~= processes@.take(i as int));
        if matches[i] {
            pids.push(processes[i].0);
        }
        i += 1;
    }
    assert(processes@.take(i as int) =~= processes@);
    pids
}

/// Each property fills its own field and no other: what is said of a device whose
/// properties agree but for one differs in that one's field at most, and there says
/// what the property does. The model doubles as the name where none is configured,
/// and the serial that adb knows the device by stands in for one it does not give.
pub proof fn law_each_property_fills_its_own_field(
    serial: Seq<char>,
    name: Option<Seq<char>>,
    properties: Seq<(Seq<char>, Seq<char>)>,
    display: Option<Display>,
    battery: Seq<char>,
    value: Seq<char>,
)
    requires
        value.len() > 0,
    ensures
        ({
            let said = |properties: Seq<(Seq<char>, Seq<char>)>|
                info_of(serial, name, properties, display, battery);
            let with = |key: Seq<char>| said(properties.push((key, value)));
            let before = said(properties);
            &&& before.id == serial && before.platform == Platform::Android
            &&& before.display == display
            &&& name is Some ==> before.name == name
            &&& with("ro.product.model"@) == (device::DeviceInfoView {
                model: Some(value),
                name: if name is Some {
                    name
                } else {
                    Some(value)
                },
                ..before
            })
            &&& with("ro.product.manufacturer"@) == (device::DeviceInfoView {
                manufacturer: Some(value),
                ..before
            })
            &&& with("ro.build.version.release"@) == (device::DeviceInfoView {
                os_version: Some(value),
                ..before
            })
            &&& with("ro.product.cpu.abi"@) == (device::DeviceInfoView {
                abi: Some(value),
                ..before
            })
            &&& with("ro.serialno"@) == (device::DeviceInfoView { serial: Some(value), ..before })
            &&& with("ro.product.brand"@) == (device::DeviceInfoView {
                brand: Some(value),
                ..before
            })
            &&& with("ro.build.display.id"@) == (device::DeviceInfoView {
                build_id: Some(value),
                ..before
            })
            &&& with("ro.build.version.security_patch"@) == (device::DeviceInfoView {
                security_patch: Some(value),
                ..before
            })
            &&& with("ro.product.cpu.abilist"@) == (device::DeviceInfoView {
                abi_list: Some(value),
                ..before
            })
            &&& said(Seq::empty()).serial == Some(serial)
            &&& said(Seq::empty()).model is None
        }),
{
    lemma_property_names();
    let keys = property_names();
    assert forall|i: int, j: int| 0 <= i < keys.len() && 0 <= j < keys.len() implies (
    #[trigger] filled_property(properties.push((keys[i], value)), #[trigger] keys[j])) == if i
        == j {
        Some(value)
    } else {
        filled_property(properties, keys[j])
    } by {
        assert(properties.push((keys[i], value)).drop_last() =~= properties);
    }
    assert(keys[0] == "ro.product.model"@ && keys[1] == "ro.product.manufacturer"@);
    assert(keys[2] == "ro.build.version.release"@ && keys[3] == "ro.product.cpu.abi"@);
    assert(keys[4] == "ro.build.version.sdk"@ && keys[5] == "ro.serialno"@);
    assert(keys[6] == "ro.product.brand"@ && keys[7] == "ro.build.display.id"@);
    assert(keys[8] == "ro.build.version.security_patch"@);
    assert(keys[9] == "ro.product.cpu.abilist"@);
    let none = Seq::<(Seq<char>, Seq<char>)>::empty();
    assert(table::value_of(none, keys[5]) is None);
    assert(table::value_of(none, keys[0]) is None);
}

/// The properties that are read of a device.
pub open spec fn property_names() -> Seq<Seq<char>> {
    seq![
        "ro.product.model"@,
        "ro.product.manufacturer"@,
        "ro.build.version.release"@,
        "ro.product.cpu.abi"@,
        "ro.build.version.sdk"@,
        "ro.serialno"@,
        "ro.product.brand"@,
        "ro.build.display.id"@,
        "ro.build.version.security_patch"@,
        "ro.product.cpu.abilist"@,
    ]
}

proof fn lemma_property_names()
    ensures
        forall|i: int, j: int|
            0 <= i < property_names().len() && 0 <= j < property_names().len() && i != j ==> (
            #[trigger] property_names()[i]) != #[trigger] property_names()[j],
{
    reveal_strlit("ro.product.model");
    reveal_strlit("ro.product.manufacturer");
    reveal_strlit("ro.build.version.release");
    reveal_strlit("ro.product.cpu.abi");
    reveal_strlit("ro.build.version.sdk");
    reveal_strlit("ro.serialno");
    reveal_strlit("ro.product.brand");
    reveal_strlit("ro.build.display.id");
    reveal_strlit("ro.build.version.security_patch");
    reveal_strlit("ro.product.cpu.abilist");
    let keys = property_names();
    assert(keys[0].len() == 16 && keys[6].len() == 16 && keys[0][11] != keys[6][11]);
    assert(keys[1].len() == 23 && keys[2].len() == 24 && keys[3].len() == 18);
    assert(keys[4].len() == 20 && keys[5].len() == 11 && keys[7].len() == 19);
    assert(keys[8].len() == 31 && keys[9].len() == 22);
}

/// A file is shown as what it is. The four bits above the permissions say what kind of
/// thing it is: four a directory, eight a plain file. Only a plain file has a size, a
/// time in seconds is shown in milliseconds, and no time is no time.
pub proof fn law_a_file_is_shown_as_what_it_is(path: Seq<char>, entry: adb::SyncDirEntryView)
    ensures
        ({
            let shown = file_of(path, entry);
            let bits = entry.mode / 0x1000 % 16;
            &&& shown.name == entry.name
            &&& shown.kind == if bits == 4 {
                FileKind::Directory
            } else if bits == 8 {
                FileKind::File
            } else {
                FileKind::Other
            }
            &&& shown.size == if bits == 8 {
                Some(entry.size as i64)
            } else {
                None
            }
            &&& entry.mtime > 0 ==> shown.modified_at is Some && shown.modified_at->0 == 1000
                * entry.mtime
            &&& entry.mtime == 0 ==> shown.modified_at is None
        }),
{
    let mode = entry.mode;
    assert((mode & 0o170000u32 == 0o040000u32) == (mode / 0x1000 % 16 == 4)) by (bit_vector);
    assert((mode & 0o170000u32 == 0o100000u32) == (mode / 0x1000 % 16 == 8)) by (bit_vector);
}

/// The pids whose CPU time is read are those of the processes that matched, every one
/// of them and no other, in their order.
pub proof fn law_every_match_is_read(
    processes: Seq<(i64, String, u64)>,
    matches: Seq<bool>,
    extra: (i64, String, u64),
    matched: bool,
)
    requires
        matches.len() == processes.len(),
    ensures
        pids_of(processes.push(extra), matches.push(matched)) == if matched {
            pids_of(processes, matches).push(extra.0)
        } else {
            pids_of(processes, matches)
        },
        pids_of(Seq::empty(), Seq::empty()) == Seq::<i64>::empty(),
{
    assert(processes.push(extra).drop_last() =~= processes);
    lemma_pids_of(processes, matches, matches.push(matched));
}

proof fn lemma_pids_of(
    processes: Seq<(i64, String, u64)>,
    matches: Seq<bool>,
    longer: Seq<bool>,
)
    requires
        processes.len() <= matches.len() <= longer.len(),
        forall|i: int| 0 <= i < matches.len() ==> #[trigger] matches[i] == longer[i],
    ensures
        pids_of(processes, matches) == pids_of(processes, longer),
    decreases processes.len(),
{
    if processes.len() > 0 {
        lemma_pids_of(processes.drop_last(), matches, longer);
        assert(matches[processes.len() - 1] == longer[processes.len() - 1]);
    }
}

/// A directory is listed under its name, however many slashes end it, and the root under
/// its own.
pub proof fn law_a_directory_is_listed_under_its_name(path: Seq<char>)
    ensures
        listed_path(path + "/"@) == listed_path(path),
        path.len() > 0 && path.last() != '/' ==> listed_path(path) == path,
        listed_path(Seq::empty()) == "/"@,
{
    reveal_strlit("/");
    text::law_only_the_end_is_trimmed(path, '/');
    assert(path + "/"@ =~= path.push('/'));
}

} // verus!
