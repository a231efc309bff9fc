//! iOS devices, reached through CoreDevice over a root-free tunnel.

use crate::backend_android;
use crate::clock;
use crate::clock::SECOND;
use crate::device::Display;
use crate::options;
use crate::options::{OptionError, OptionValue};
use crate::property;
use vstd::prelude::*;
use vstd::string::*;

pub mod browse;
pub mod ddi;
pub mod device;
pub mod hevc;
pub mod hid;
pub mod media;
pub mod report;
pub mod session;

verus! {

/// How stale a battery reading may be before a fresh one is paid for.
pub const BATTERY_TTL: u64 = 60 * SECOND;

/// How long an app listing may take end to end, its stream included.
pub const APPS_TIMEOUT: u64 = 12 * SECOND;

/// How long to wait for a session when a request needs one.
pub const SESSION_WAIT: u64 = 20 * SECOND;

/// Per-device settings from the configuration's `options:` map.
#[derive(Debug, Clone)]
pub struct IosOptions {
    pub udid: String,
    /// Which display to mirror. 0 is the built-in screen.
    pub display_id: i64,
    /// Force a fresh key frame while the screen is moving.
    pub motion_idr: bool,
}

/// A display's number: the built-in screen where none is given, and nothing
/// where it is no integer.
pub open spec fn display_id_in(value: Option<options::OptionValueView>) -> Option<i64> {
    match value {
        None => Some(0),
        Some(options::OptionValueView::Number { signed: Some(n), .. }) => Some(n),
        _ => None,
    }
}

/// Whether motion forces key frames: so where it is not said, and nothing where
/// it is no boolean.
pub open spec fn motion_idr_in(value: Option<options::OptionValueView>) -> Option<bool> {
    match value {
        None => Some(true),
        Some(options::OptionValueView::Bool(on)) => Some(on),
        _ => None,
    }
}

/// A device's two settings, or what is wrong with the first that is mistyped.
pub open spec fn ios_options_of(
    display_id: Option<options::OptionValueView>,
    motion_idr: Option<options::OptionValueView>,
) -> Result<(i64, bool), Seq<char>> {
    if display_id_in(display_id) is None {
        Err("display_id"@ + " must be an integer"@)
    } else if motion_idr_in(motion_idr) is None {
        Err("motion_idr"@ + " must be a boolean"@)
    } else {
        Ok((display_id_in(display_id)->0, motion_idr_in(motion_idr)->0))
    }
}

/// Whether settings, or an error, are what two settings come to.
pub open spec fn came_out_as(
    parsed: Result<IosOptions, OptionError>,
    udid: Seq<char>,
    expected: Result<(i64, bool), Seq<char>>,
) -> bool {
    match (parsed, expected) {
        (Ok(options), Ok((display_id, motion_idr))) => {
            &&& options.udid@ == udid
            &&& options.display_id == display_id
            &&& options.motion_idr == motion_idr
        },
        (Err(error), Err(message)) => error@ == message,
        _ => false,
    }
}

impl IosOptions {
    /// Read a device's settings. A mistyped one is an error, not a silent
    /// default.
    pub fn parse(udid: &str, options: &serde_json::Map<String, serde_json::Value>) -> (parsed:
        Result<Self, OptionError>)
        ensures
            came_out_as(
                parsed,
                udid@,
                ios_options_of(
                    options::setting_in(*options, "display_id"@),
                    options::setting_in(*options, "motion_idr"@),
                ),
            ),
    {
        Self::from_settings(
            udid,
            options::setting(options, "display_id"),
            options::setting(options, "motion_idr"),
        )
    }

    /// A device's settings from the two that are read.
    pub fn from_settings(
        udid: &str,
        display_id: Option<OptionValue>,
        motion_idr: Option<OptionValue>,
    ) -> (parsed: Result<Self, OptionError>)
        ensures
            came_out_as(
                parsed,
                udid@,
                ios_options_of(
                    options::setting_view(display_id),
                    options::setting_view(motion_idr),
                ),
            ),
    {
        let display_id: i64 = match display_id {
            None => 0,
            Some(OptionValue::Number { signed: Some(n), .. }) => n,
            _ => {
                return Err(options::option_error("display_id", " must be an integer"));
            },
        };
        let motion_idr = match motion_idr {
            None => true,
            Some(OptionValue::Bool(on)) => on,
            _ => {
                return Err(options::option_error("motion_idr", " must be a boolean"));
            },
        };
        Ok(IosOptions { udid: udid.to_owned(), display_id, motion_idr })
    }
}

/// Degrees as an angle of one turn.
fn within_turn(degrees: i64) -> (angle: i64)
    ensures
        angle == degrees as int % 360,
{
    if degrees >= 0 {
        degrees % 360
    } else {
        let below: u64 = (-(degrees + 1)) as u64;
        359 - (below % 360) as i64
    }
}

/// How far a viewer has to turn the picture of a device turned this far.
pub open spec fn turned_back(orientation: int) -> int {
    (360 - orientation % 360) % 360
}

/// How far the *viewer* must turn the picture of a device in this orientation.
///
/// The inverse, not the same number. The rotated screen is drawn inside a
/// capture buffer that never moves, so a device at 90° hands over a picture
/// already turned 90°, and undoing that means turning it back the other way.
pub fn render_rotation_for(orientation: i64) -> (degrees: i64)
    ensures
        degrees == turned_back(orientation as int),
{
    within_turn(360 - within_turn(orientation))
}

/// Turning the picture back lands where it started, whichever way up the device
/// is.
pub proof fn law_the_picture_comes_out_upright(orientation: int)
    ensures
        (orientation + turned_back(orientation)) % 360 == 0,
        0 <= turned_back(orientation) < 360,
{
}

/// The encoded frame size, and the device's orientation.
///
/// The two are only meaningful together: the frame size never changes when a
/// device rotates, so orientation is the *only* thing that tells a viewer the
/// picture is sideways.
#[derive(Debug, Clone, Copy, PartialEq, Eq)]
pub struct Geometry {
    size: Option<(i64, i64)>,
    rotation: Option<i64>,
}

/// What is known of a picture: its size, and how far the device is turned.
#[verifier::ext_equal]
pub struct GeometryView {
    pub size: Option<(i64, i64)>,
    pub rotation: Option<i64>,
}

impl View for Geometry {
    type V = GeometryView;

    closed spec fn view(&self) -> GeometryView {
        GeometryView { size: self.size, rotation: self.rotation }
    }
}

/// What viewers are told of a picture.
#[derive(Debug, Clone, Copy, PartialEq, Eq)]
pub struct VideoGeometry {
    pub width: i64,
    pub height: i64,
    pub rotation: Option<i64>,
    pub render_rotation: Option<i64>,
}

/// How far a viewer has to turn the picture, where that is known.
pub open spec fn render_rotation_of(rotation: Option<i64>) -> Option<i64> {
    match rotation {
        Some(rotation) => Some(turned_back(rotation as int) as i64),
        None => None,
    }
}

fn render_rotation(rotation: Option<i64>) -> (render: Option<i64>)
    ensures
        render == render_rotation_of(rotation),
{
    match rotation {
        Some(rotation) => Some(render_rotation_for(rotation)),
        None => None,
    }
}

impl Geometry {
    #[verifier::type_invariant]
    spec fn well_formed(self) -> bool {
        self.rotation matches Some(degrees) ==> 0 <= degrees < 360
    }

    /// A picture of which nothing is known.
    pub fn new() -> (geometry: Self)
        ensures
            geometry@ == (GeometryView { size: None, rotation: None }),
    {
        Geometry { size: None, rotation: None }
    }

    /// Note the frame size.
    pub fn set(&mut self, size: (i64, i64))
        ensures
            final(self)@ == (GeometryView { size: Some(size), ..old(self)@ }),
    {
        proof {
            use_type_invariant(&*self);
        }
        self.size = Some(size);
    }

    /// The frame size, once it is known.
    pub fn get(&self) -> (size: Option<(i64, i64)>)
        ensures
            size == self@.size,
    {
        self.size
    }

    /// Note how far the device is turned.
    pub fn set_rotation(&mut self, degrees: i64)
        ensures
            final(self)@ == (GeometryView {
                rotation: Some((degrees as int % 360) as i64),
                ..old(self)@
            }),
    {
        self.rotation = Some(within_turn(degrees));
    }

    /// How far the device is turned. Nothing until that is actually known: an
    /// invented 0 would make the walk to another orientation wrong.
    pub fn rotation(&self) -> (degrees: Option<i64>)
        ensures
            degrees == self@.rotation,
            degrees matches Some(degrees) ==> 0 <= degrees < 360,
    {
        proof {
            use_type_invariant(self);
        }
        self.rotation
    }

    /// What viewers are told of the picture, once there is one.
    pub fn announced(&self) -> (announced: Option<VideoGeometry>)
        ensures
            announced == match self@.size {
                Some((width, height)) => Some(
                    VideoGeometry {
                        width,
                        height,
                        rotation: self@.rotation,
                        render_rotation: render_rotation_of(self@.rotation),
                    },
                ),
                None => None,
            },
    {
        match self.size {
            Some((width, height)) => Some(
                VideoGeometry {
                    width,
                    height,
                    rotation: self.rotation,
                    render_rotation: render_rotation(self.rotation),
                },
            ),
            None => None,
        }
    }

    /// The screen, as the stream's own parameters tell it. They speak of pixels,
    /// so there is no scale to report.
    pub fn display(&self) -> (display: Option<Display>)
        ensures
            display == match self@.size {
                Some((width, height)) => Some(
                    Display {
                        width,
                        height,
                        density: None,
                        rotation: self@.rotation,
                        render_rotation: render_rotation_of(self@.rotation),
                    },
                ),
                None => None,
            },
    {
        match self.size {
            Some((width, height)) => Some(
                Display {
                    width,
                    height,
                    density: None,
                    rotation: self.rotation,
                    render_rotation: render_rotation(self.rotation),
                },
            ),
            None => None,
        }
    }

    /// How many 90° steps lead to an orientation. Until the device has said
    /// which way up it is, a rotation is a single step.
    pub fn steps_to(&self, degrees: i64) -> (steps: i64)
        requires
            self@.rotation matches Some(current) ==> i64::MIN <= degrees - current,
        ensures
            steps == match self@.rotation {
                Some(current) => crate::backend_android::steps_between(
                    current as int,
                    degrees as int,
                ),
                None => 1,
            },
    {
        proof {
            use_type_invariant(self);
        }
        match self.rotation {
            Some(current) => backend_android::rotation_steps(current, degrees),
            None => 1,
        }
    }

    /// Take the orientation that a walk landed in, and tell whether there is
    /// something to announce. An answer that is no orientation leaves everything
    /// as it was.
    pub fn landed(&mut self, degrees: Option<i64>) -> (changed: bool)
        ensures
            changed == degrees is Some,
            final(self)@ == match degrees {
                Some(degrees) => GeometryView {
                    rotation: Some((degrees as int % 360) as i64),
                    ..old(self)@
                },
                None => old(self)@,
            },
    {
        match degrees {
            Some(degrees) => {
                self.set_rotation(degrees);
                true
            },
            None => false,
        }
    }
}

/// Where a battery reading comes from.
#[derive(Debug, Clone, Copy, PartialEq, Eq, Structural)]
pub enum BatterySource {
    /// Where the charge level actually lives.
    Registry,
    /// The service that is named for it, and answers without a level.
    GasGauge,
}

/// Which source's answer counts.
pub open spec fn source_of(registry: Option<bool>, gauge: Option<bool>) -> BatterySource {
    if registry == Some(true) {
        BatterySource::Registry
    } else if gauge == Some(true) {
        BatterySource::GasGauge
    } else if registry is Some {
        BatterySource::Registry
    } else {
        BatterySource::GasGauge
    }
}

/// How much an answer is worth: one with a level more than one without, and that more
/// than none.
pub open spec fn worth(answer: Option<bool>) -> int {
    match answer {
        Some(true) => 2,
        Some(false) => 1,
        None => 0,
    }
}

/// The answer that counts is the one that is worth more, and of two that are worth the
/// same the registry's, where there is one.
pub proof fn law_the_better_answer_counts(registry: Option<bool>, gauge: Option<bool>)
    ensures
        worth(registry) > worth(gauge) ==> source_of(registry, gauge) == BatterySource::Registry,
        worth(registry) < worth(gauge) ==> source_of(registry, gauge) == BatterySource::GasGauge,
        worth(registry) == worth(gauge) && registry is Some ==> source_of(registry, gauge)
            == BatterySource::Registry,
{
}

/// Which source's answer counts. Each is told by whether it answered, and if it
/// did, whether a level came out of it: an answer without a level is not one to
/// stop at, but better than none.
pub fn battery_source(registry: Option<bool>, gauge: Option<bool>) -> (source: BatterySource)
    ensures
        source == source_of(registry, gauge),
{
    match (registry, gauge) {
        (Some(true), _) => BatterySource::Registry,
        (_, Some(true)) => BatterySource::GasGauge,
        (Some(_), _) => BatterySource::Registry,
        _ => BatterySource::GasGauge,
    }
}

/// Whether a battery charges: what it says itself, or else whether power is
/// connected.
pub open spec fn charging_of(
    is_charging: Option<property::PropertyView>,
    external: Option<property::PropertyView>,
) -> Option<bool> {
    if property::truth_of(is_charging) is Some {
        property::truth_of(is_charging)
    } else {
        property::truth_of(external)
    }
}

/// Whether a battery charges, from what the device says of it.
pub fn charging(values: &plist::Dictionary) -> (charging: Option<bool>)
    ensures
        charging == charging_of(
            property::property_at(*values, "IsCharging"@),
            property::property_at(*values, "ExternalConnected"@),
        ),
{
    match property::as_truth(property::property(values, "IsCharging")) {
        Some(charging) => Some(charging),
        None => property::as_truth(property::property(values, "ExternalConnected")),
    }
}

/// How a charge level is worked out.
#[derive(Debug, Clone, Copy, PartialEq, Eq, Structural)]
pub enum LevelRule {
    /// The capacity over the maximum.
    Ratio,
    /// The capacity is a percentage.
    Percentage,
    /// No level can be told.
    Unknown,
}

/// How a charge level is worked out.
pub open spec fn rule_for(
    has_capacity: bool,
    has_maximum: bool,
    at_most_hundred: bool,
) -> LevelRule {
    if !has_capacity {
        LevelRule::Unknown
    } else if has_maximum {
        LevelRule::Ratio
    } else if at_most_hundred {
        LevelRule::Percentage
    } else {
        LevelRule::Unknown
    }
}

/// A level is the capacity over its maximum wherever both are there, a percentage only
/// where it can be one and there is no maximum, and unknown in every other case.
pub proof fn law_a_level_is_never_made_up(has_maximum: bool, at_most_hundred: bool)
    ensures
        rule_for(true, true, at_most_hundred) == LevelRule::Ratio,
        rule_for(true, false, true) == LevelRule::Percentage,
        rule_for(true, false, false) == LevelRule::Unknown,
        rule_for(false, has_maximum, at_most_hundred) == LevelRule::Unknown,
{
}

/// A battery that says whether it charges is believed, and else whether it has power
/// from outside decides; a number stands for yes where it is not zero.
pub proof fn law_a_battery_is_believed_first(own: bool, external: bool, n: u64)
    ensures
        ({
            let flag = |on: bool| Some(property::PropertyView::Flag(on));
            let number = Some(property::PropertyView::Integer(Some(n)));
            &&& charging_of(flag(own), flag(external)) == Some(own)
            &&& charging_of(flag(own), None) == Some(own)
            &&& charging_of(None, flag(external)) == Some(external)
            &&& charging_of(number, flag(external)) == Some(n != 0)
            &&& charging_of(None, number) == Some(n != 0)
            &&& charging_of(None, None) is None
        }),
{
}

/// The times that an iOS device is run by.
pub proof fn law_a_device_is_run_by_these_times()
    ensures
        BATTERY_TTL == 60_000_000_000,
        APPS_TIMEOUT == 12_000_000_000,
        SESSION_WAIT == 20_000_000_000,
        session::RECONNECT_DELAY == 5_000_000_000,
        session::HID_SETTLE == 300_000_000,
{
}

/// How a charge level is worked out: over a maximum that is positive, or else
/// from a capacity that can be a percentage. One above 100 is a raw reading with
/// its maximum missing, and no level is better than a battery pinned at full.
pub fn level_rule(has_capacity: bool, has_maximum: bool, at_most_hundred: bool) -> (rule: LevelRule)
    ensures
        rule == rule_for(has_capacity, has_maximum, at_most_hundred),
{
    if !has_capacity {
        LevelRule::Unknown
    } else if has_maximum {
        LevelRule::Ratio
    } else if at_most_hundred {
        LevelRule::Percentage
    } else {
        LevelRule::Unknown
    }
}

/// The last battery reading, with the time at which it was taken.
///
/// A round trip to the device is far too expensive to make on every poll, so one
/// reading is shared.
#[derive(Debug)]
pub struct BatteryCache<R> {
    pub cached: Option<(u64, R)>,
}

impl<R: Copy> BatteryCache<R> {
    /// The reading, where it is younger than `max_age`.
    pub open spec fn younger_than(self, max_age: u64, now: u64) -> Option<R> {
        match self.cached {
            Some((at, reading)) if clock::since(now, at) < max_age => Some(reading),
            _ => None,
        }
    }

    /// The cache after a fresh reading was taken, or could not be.
    pub open spec fn stored(self, reading: Option<R>, now: u64) -> BatteryCache<R> {
        BatteryCache {
            cached: match reading {
                Some(reading) => Some((now, reading)),
                None => None,
            },
        }
    }

    /// Nothing has been read yet.
    pub fn new() -> (cache: Self)
        ensures
            cache.cached is None,
    {
        BatteryCache { cached: None }
    }

    /// The reading, where it is younger than `max_age`; none is younger than
    /// nothing.
    pub fn fresh(&self, max_age: u64, now: u64) -> (reading: Option<R>)
        ensures
            reading == self.younger_than(max_age, now),
    {
        match self.cached {
            Some((at, reading)) if clock::elapsed(now, at) < max_age => Some(reading),
            _ => None,
        }
    }

    /// Take a fresh reading. Where there is none the stale one is dropped rather
    /// than served again: a phone that has gone away must stop reporting a
    /// charge.
    pub fn store(&mut self, reading: Option<R>, now: u64)
        ensures
            *final(self) == old(self).stored(reading, now),
    {
        self.cached = match reading {
            Some(reading) => Some((now, reading)),
            None => None,
        };
    }
}

/// A reading is served until it is as old as is accepted and never after, a
/// reader that accepts no age always gets a fresh one, and one that could not be
/// taken leaves nothing to serve.
pub proof fn law_a_stale_reading_is_never_served<R: Copy>(
    cache: BatteryCache<R>,
    reading: R,
    taken: u64,
    now: u64,
    max_age: u64,
)
    requires
        taken <= now,
    ensures
        cache.stored(Some(reading), taken).younger_than(max_age, now) == (if now - taken < max_age {
            Some(reading)
        } else {
            None
        }),
        cache.younger_than(0, now) is None,
        cache.stored(None, taken).younger_than(max_age, now) is None,
{
}

/// Each option of an iOS device says its own thing, and what is not given is the main
/// display, with refreshes while something moves.
pub proof fn law_each_option_says_its_own_thing(
    id: i64,
    unsigned: Option<u64>,
    on: bool,
    other: options::OptionValueView,
)
    ensures
        ({
            let number = Some(options::OptionValueView::Number { unsigned, signed: Some(id) });
            let flag = Some(options::OptionValueView::Bool(on));
            &&& ios_options_of(number, flag) == Ok::<_, Seq<char>>((id, on))
            &&& ios_options_of(None, flag) == Ok::<_, Seq<char>>((0i64, on))
            &&& ios_options_of(number, None) == Ok::<_, Seq<char>>((id, true))
            &&& !(other is Number) ==> ios_options_of(Some(other), flag) == Err::<
                (i64, bool),
                Seq<char>,
            >("display_id must be an integer"@)
            &&& !(other is Bool) ==> ios_options_of(number, Some(other)) == Err::<
                (i64, bool),
                Seq<char>,
            >("motion_idr must be a boolean"@)
        }),
{
    reveal_strlit("display_id");
    reveal_strlit(" must be an integer");
    reveal_strlit("display_id must be an integer");
    reveal_strlit("motion_idr");
    reveal_strlit(" must be a boolean");
    reveal_strlit("motion_idr must be a boolean");
    assert("display_id"@ + " must be an integer"@ =~= "display_id must be an integer"@);
    assert("motion_idr"@ + " must be a boolean"@ =~= "motion_idr must be a boolean"@);
}

} // verus!
