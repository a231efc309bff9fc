//! What is said of an iOS device, and what its answers mean.

use crate::backend_ios::device;
use crate::backend_ios::device::DeviceIdentity;
use crate::device::{AppInfo, AppInfoView, DeviceInfo, DeviceInfoView, Display, Platform};
use crate::text;
use vstd::prelude::*;
use vstd::string::*;

verus! {

/// A text that is not empty.
pub open spec fn filled(value: Seq<char>) -> Option<Seq<char>> {
    if value.len() > 0 {
        Some(value)
    } else {
        None
    }
}

fn filled_text(value: String) -> (out: Option<String>)
    ensures
        text::text_in(out) == filled(value@),
{
    if value.as_str().is_empty() {
        None
    } else {
        Some(value)
    }
}

/// What is said of a device: a configured name wins over its own, and the udid
/// is its serial.
pub open spec fn info_of(
    udid: Seq<char>,
    name: Option<Seq<char>>,
    identity: device::DeviceIdentityView,
    display: Option<Display>,
    charging: Option<bool>,
) -> DeviceInfoView {
    DeviceInfoView {
        id: udid,
        platform: Platform::Ios,
        name: if name is Some {
            name
        } else {
            filled(identity.name)
        },
        model: filled(identity.product_type),
        manufacturer: Some("Apple"@),
        os_version: filled(identity.version),
        abi: filled(identity.cpu),
        sdk: None,
        serial: Some(udid),
        brand: None,
        build_id: filled(identity.build),
        security_patch: None,
        abi_list: None,
        display,
        battery_state: match charging {
            Some(true) => Some("charging"@),
            Some(false) => Some("discharging"@),
            None => None,
        },
    }
}

/// What is said of a device.
pub fn info(
    udid: &str,
    name: Option<String>,
    identity: DeviceIdentity,
    display: Option<Display>,
    charging: Option<bool>,
) -> (info: DeviceInfo)
    ensures
        info@ == info_of(udid@, text::text_in(name), identity@, display, charging),
{
    let shown = match name {
        Some(name) => Some(name),
        None => filled_text(identity.name),
    };
    let info = DeviceInfo {
        id: udid.to_owned(),
        platform: Platform::Ios,
        name: shown,
        model: filled_text(identity.product_type),
        manufacturer: Some("Apple".to_owned()),
        os_version: filled_text(identity.version),
        abi: filled_text(identity.cpu),
        sdk: None,
        serial: Some(udid.to_owned()),
        brand: None,
        build_id: filled_text(identity.build),
        security_patch: None,
        abi_list: None,
        display,
        battery_state: match charging {
            Some(true) => Some("charging".to_owned()),
            Some(false) => Some("discharging".to_owned()),
            None => None,
        },
    };
    info
}

/// What a request for the list of apps asks for: third-party apps only, which is
/// every caller's question. The last three are sent because the device requires
/// the *keys*, not because anybody wants what they ask for.
pub open spec fn app_list_options() -> Seq<(Seq<char>, bool)> {
    seq![
        ("includeAppClips"@, false),
        ("includeRemovableApps"@, true),
        ("includeHiddenApps"@, false),
        ("includeInternalApps"@, false),
        ("includeDefaultApps"@, false),
        ("requireContainerAccess"@, false),
        ("includeAppGroupIdentifiers"@, false),
        ("includeContainerPaths"@, false),
    ]
}

/// What a request for the list of apps asks for.
pub fn list_apps_options() -> (options: Vec<(&'static str, bool)>)
    ensures
        options@.map_values(|option: (&'static str, bool)| (option.0@, option.1))
            == app_list_options(),
{
    let mut options: Vec<(&'static str, bool)> = Vec::new();
    options.push(("includeAppClips", false));
    options.push(("includeRemovableApps", true));
    options.push(("includeHiddenApps", false));
    options.push(("includeInternalApps", false));
    options.push(("includeDefaultApps", false));
    options.push(("requireContainerAccess", false));
    options.push(("includeAppGroupIdentifiers", false));
    options.push(("includeContainerPaths", false));
    assert(options@.map_values(|option: (&'static str, bool)| (option.0@, option.1))
        =~= app_list_options());
    options
}

/// An app, as the device lists it.
#[derive(Debug)]
pub struct ListedApp {
    pub bundle: String,
    pub name: String,
    pub version: Option<String>,
    pub removable: bool,
}

/// Why a device's answer is no list of apps.
#[derive(Debug, Clone, Copy, PartialEq, Eq, Structural)]
pub enum ListError {
    NotAnArray,
    BadEntry,
}

impl ListError {
    pub open spec fn text(self) -> Seq<char> {
        match self {
            ListError::NotAnArray => "list apps result was not an array"@,
            ListError::BadEntry => "failed to parse app list entry"@,
        }
    }

    /// The error in words.
    pub fn message(self) -> (message: &'static str)
        ensures
            message@ == self.text(),
    {
        match self {
            ListError::NotAnArray => "list apps result was not an array",
            ListError::BadEntry => "failed to parse app list entry",
        }
    }
}

/// The list of apps in a device's answer: its entries, where it is an array, each
/// an app where it could be read as one. One that could not fails the whole list.
pub fn listed_apps(entries: Option<Vec<Option<ListedApp>>>) -> (apps: Result<
    Vec<ListedApp>,
    ListError,
>)
    ensures
        match apps {
            Ok(apps) => entries is Some && entries->0@ == apps@.map_values(
                |app: ListedApp| Some(app),
            ),
            Err(ListError::NotAnArray) => entries is None,
            Err(ListError::BadEntry) => entries is Some && exists|i: int|
                0 <= i < entries->0@.len() && (#[trigger] entries->0@[i]) is None,
        },
{
    let listed = match entries {
        Some(listed) => listed,
        None => {
            return Err(ListError::NotAnArray);
        },
    };
    let ghost all = listed@;
    let mut apps: Vec<ListedApp> = Vec::new();
    assert(apps@.map_values(|app: ListedApp| Some(app)) =~= all.take(0));
    for entry in it: listed
        invariant
            it.seq() == all,
            entries is Some && entries->0@ == all,
            apps@.map_values(|app: ListedApp| Some(app)) == all.take(it.index() as int),
    {
        let ghost before = apps@.map_values(|app: ListedApp| Some(app));
        assert(all[it.index() as int] == entry);
        match entry {
            Some(app) => {
                apps.push(app);
                assert(apps@.map_values(|app: ListedApp| Some(app)) =~= before.push(Some(app)));
                assert(all.take(it.index() + 1) =~= before.push(Some(app)));
            },
            None => {
                return Err(ListError::BadEntry);
            },
        }
    }
    assert(all.take(all.len() as int) =~= all);
    Ok(apps)
}

/// What is said of an app that the device lists.
pub open spec fn app_of(app: ListedApp) -> AppInfoView {
    AppInfoView {
        id: app.bundle@,
        name: filled(app.name@),
        version: text::text_in(app.version),
        system: Some(!app.removable),
    }
}

/// What is said of the apps that the device lists; one without a bundle is
/// passed over.
pub open spec fn apps_of(listed: Seq<ListedApp>) -> Seq<AppInfoView>
    decreases listed.len(),
{
    if listed.len() == 0 {
        seq![]
    } else if listed.last().bundle@.len() == 0 {
        apps_of(listed.drop_last())
    } else {
        apps_of(listed.drop_last()).push(app_of(listed.last()))
    }
}

/// What is said of the apps that the device lists.
pub fn apps(listed: Vec<ListedApp>) -> (apps: Vec<AppInfo>)
    ensures
        crate::device::app_views(apps@) == apps_of(listed@),
{
    let ghost all = listed@;
    let mut out: Vec<AppInfo> = Vec::new();
    for app in it: listed
        invariant
            it.seq() == all,
            crate::device::app_views(out@) == apps_of(all.take(it.index() as int)),
    {
        let ghost at = it.index() as int;
        assert(all.take(at + 1).drop_last() =~= all.take(at));
        assert(all.take(at + 1).last() == app);
        let ghost before = out@;
        if !app.bundle.as_str().is_empty() {
            let ghost shown = app_of(app);
            let info = AppInfo {
                id: app.bundle,
                name: filled_text(app.name),
                version: app.version,
                system: Some(!app.removable),
            };
            out.push(info);
            assert(info@ == shown);
            assert(crate::device::app_views(out@) =~= crate::device::app_views(before).push(shown));
        }
    }
    assert(all.take(all.len() as int) =~= all);
    out
}

/// One thing on the clipboard: its type, and its bytes where they came along.
#[derive(Debug)]
pub struct ClipboardEntry {
    pub uti: String,
    pub inline: Option<Vec<u8>>,
}

/// The text of an entry that is one: its type says so, its bytes came along, and
/// they are UTF-8.
pub open spec fn entry_text(entry: ClipboardEntry) -> Option<Seq<char>> {
    if text::contains_text(entry.uti@, "text"@) && entry.inline is Some
        && vstd::utf8::valid_utf8(entry.inline->0@) {
        Some(vstd::utf8::decode_utf8(entry.inline->0@))
    } else {
        None
    }
}

/// The first text on the clipboard.
pub open spec fn first_text(entries: Seq<ClipboardEntry>) -> Option<Seq<char>>
    decreases entries.len(),
{
    if entries.len() == 0 {
        None
    } else if entry_text(entries[0]) is Some {
        entry_text(entries[0])
    } else {
        first_text(entries.drop_first())
    }
}

/// The first text on the clipboard.
pub fn clipboard_text(entries: Vec<ClipboardEntry>) -> (found: Option<String>)
    ensures
        text::text_in(found) == first_text(entries@),
{
    let ghost all = entries@;
    assert(all.skip(0) =~= all);
    for entry in it: entries
        invariant
            it.seq() == all,
            first_text(all) == first_text(all.skip(it.index() as int)),
    {
        let ghost at = it.index() as int;
        assert(all.skip(at)[0] == entry);
        assert(all.skip(at).drop_first() =~= all.skip(at + 1));
        let chars = text::chars_of(&entry.uti);
        if text::holds(&chars, "text") {
            if let Some(bytes) = entry.inline {
                if let Some(found) = text::strict_text(bytes) {
                    return Some(found);
                }
            }
        }
    }
    assert(all.skip(all.len() as int) =~= Seq::<ClipboardEntry>::empty());
    None
}

/// The first thing on a clipboard that is a text is the one that is taken, and where
/// there is none nothing is.
pub proof fn law_the_first_text_is_taken(entries: Seq<ClipboardEntry>, at: int)
    requires
        0 <= at < entries.len(),
        forall|i: int| 0 <= i < at ==> entry_text(#[trigger] entries[i]) is None,
    ensures
        entry_text(entries[at]) is Some ==> first_text(entries) == entry_text(entries[at]),
        entry_text(entries[at]) is None && at == entries.len() - 1 ==> first_text(entries) is None,
    decreases entries.len(),
{
    if at > 0 {
        let rest = entries.drop_first();
        assert forall|i: int| 0 <= i < at - 1 implies entry_text(#[trigger] rest[i]) is None by {
            assert(rest[i] == entries[i + 1]);
        }
        assert(entry_text(entries[0]) is None);
        law_the_first_text_is_taken(rest, at - 1);
        assert(rest[at - 1] == entries[at]);
    } else if entries.len() == 1 {
        assert(entries.drop_first() =~= Seq::<ClipboardEntry>::empty());
        assert(first_text(entries.drop_first()) is None);
    }
}

/// Every app that has a bundle is said, once, in the order of the list, by its own
/// bundle, name and version; it belongs to the system exactly where it cannot be
/// removed.
pub proof fn law_each_listed_app_is_said(listed: Seq<ListedApp>, app: ListedApp)
    ensures
        app.bundle@.len() > 0 ==> apps_of(listed.push(app)) == apps_of(listed).push(
            AppInfoView {
                id: app.bundle@,
                name: if app.name@.len() > 0 {
                    Some(app.name@)
                } else {
                    None
                },
                version: match app.version {
                    Some(version) => Some(version@),
                    None => None,
                },
                system: Some(!app.removable),
            },
        ),
        app.bundle@.len() == 0 ==> apps_of(listed.push(app)) == apps_of(listed),
        apps_of(Seq::empty()) == Seq::<AppInfoView>::empty(),
{
    assert(listed.push(app).drop_last() =~= listed);
}

/// What is said of a device is what it says of itself, each thing in its own place.
pub proof fn law_a_device_is_described_by_its_identity(
    udid: Seq<char>,
    name: Option<Seq<char>>,
    identity: device::DeviceIdentityView,
    display: Option<Display>,
    charging: Option<bool>,
)
    requires
        identity.name.len() > 0 && identity.product_type.len() > 0 && identity.version.len() > 0,
        identity.build.len() > 0 && identity.cpu.len() > 0,
    ensures
        ({
            let said = info_of(udid, name, identity, display, charging);
            &&& said.id == udid && said.serial == Some(udid) && said.platform == Platform::Ios
            &&& name is Some ==> said.name == name
            &&& name is None ==> said.name == Some(identity.name)
            &&& said.model == Some(identity.product_type)
            &&& said.os_version == Some(identity.version)
            &&& said.build_id == Some(identity.build)
            &&& said.abi == Some(identity.cpu)
            &&& said.display == display
            &&& charging is None ==> said.battery_state is None
            &&& charging == Some(true) ==> said.battery_state == Some("charging"@)
            &&& charging == Some(false) ==> said.battery_state == Some("discharging"@)
            &&& said.sdk is None && said.brand is None && said.abi_list is None
        }),
{
}

} // verus!
