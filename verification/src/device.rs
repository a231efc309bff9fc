//! What a provider says of a device.

use crate::text;
use vstd::prelude::*;

verus! {

#[derive(Debug, Clone, Copy, PartialEq, Eq, Structural)]
pub enum Platform {
    Android,
    Ios,
}

/// A device's screen.
#[derive(Debug, Clone, Copy, PartialEq, Eq, Structural)]
pub struct Display {
    pub width: i64,
    pub height: i64,
    /// Dots per inch, of which 160 make a scale of one.
    pub density: Option<i64>,
    /// How far the device is turned, in degrees.
    pub rotation: Option<i64>,
    /// How far a viewer has to turn the picture, in degrees.
    pub render_rotation: Option<i64>,
}

/// An app on a device.
#[derive(Debug, Clone, PartialEq, Eq)]
pub struct AppInfo {
    pub id: String,
    pub name: Option<String>,
    pub version: Option<String>,
    pub system: Option<bool>,
}

/// What is known of an app.
#[verifier::ext_equal]
pub struct AppInfoView {
    pub id: Seq<char>,
    pub name: Option<Seq<char>>,
    pub version: Option<Seq<char>>,
    pub system: Option<bool>,
}

impl View for AppInfo {
    type V = AppInfoView;

    open spec fn view(&self) -> AppInfoView {
        AppInfoView {
            id: self.id@,
            name: text::text_in(self.name),
            version: text::text_in(self.version),
            system: self.system,
        }
    }
}

/// The apps in a vector.
pub open spec fn app_views(apps: Seq<AppInfo>) -> Seq<AppInfoView> {
    apps.map_values(|app: AppInfo| app@)
}

/// What a provider says of a device.
#[derive(Debug)]
pub struct DeviceInfo {
    pub id: String,
    pub platform: Platform,
    pub name: Option<String>,
    pub model: Option<String>,
    pub manufacturer: Option<String>,
    pub os_version: Option<String>,
    pub abi: Option<String>,
    pub sdk: Option<i64>,
    pub serial: Option<String>,
    pub brand: Option<String>,
    pub build_id: Option<String>,
    pub security_patch: Option<String>,
    pub abi_list: Option<String>,
    pub display: Option<Display>,
    pub battery_state: Option<String>,
}

/// What a provider says of a device.
#[verifier::ext_equal]
pub struct DeviceInfoView {
    pub id: Seq<char>,
    pub platform: Platform,
    pub name: Option<Seq<char>>,
    pub model: Option<Seq<char>>,
    pub manufacturer: Option<Seq<char>>,
    pub os_version: Option<Seq<char>>,
    pub abi: Option<Seq<char>>,
    pub sdk: Option<i64>,
    pub serial: Option<Seq<char>>,
    pub brand: Option<Seq<char>>,
    pub build_id: Option<Seq<char>>,
    pub security_patch: Option<Seq<char>>,
    pub abi_list: Option<Seq<char>>,
    pub display: Option<Display>,
    pub battery_state: Option<Seq<char>>,
}

impl View for DeviceInfo {
    type V = DeviceInfoView;

    open spec fn view(&self) -> DeviceInfoView {
        DeviceInfoView {
            id: self.id@,
            platform: self.platform,
            name: text::text_in(self.name),
            model: text::text_in(self.model),
            manufacturer: text::text_in(self.manufacturer),
            os_version: text::text_in(self.os_version),
            abi: text::text_in(self.abi),
            sdk: self.sdk,
            serial: text::text_in(self.serial),
            brand: text::text_in(self.brand),
            build_id: text::text_in(self.build_id),
            security_patch: text::text_in(self.security_patch),
            abi_list: text::text_in(self.abi_list),
            display: self.display,
            battery_state: text::text_in(self.battery_state),
        }
    }
}

} // verus!
