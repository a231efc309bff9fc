//! Android devices, reached through an adb server.

use crate::backend_android::scrcpy::ScrcpyOptions;
use crate::options;
use crate::options::{OptionError, OptionValue};
use crate::text;
use vstd::prelude::*;
use vstd::string::*;

pub mod adb;
pub mod bridge;
pub mod device;
pub mod h264;
pub mod metrics;
pub mod scrcpy;

verus! {

/// Per-device settings from the configuration's `options:` map.
#[derive(Debug, Clone)]
pub struct AndroidOptions {
    pub serial: String,
    pub adb_server: String,
    pub scrcpy: ScrcpyOptions,
}

/// A setting that must be a positive integer, of which the low 32 bits count:
/// the default where it is not there, and nothing where it is something else.
pub open spec fn number_or(
    value: Option<options::OptionValueView>,
    default: u32,
) -> Option<u32> {
    match value {
        None => Some(default),
        Some(options::OptionValueView::Number { unsigned: Some(n), .. }) => Some(
            (n % 0x1_0000_0000) as u32,
        ),
        _ => None,
    }
}

/// The settings of a device, or what is wrong with the first that is mistyped.
pub open spec fn android_options_in(
    options: serde_json::Map<String, serde_json::Value>,
) -> Result<(Seq<char>, ScrcpyOptions), Seq<char>> {
    let usual = ScrcpyOptions::usual();
    let server = options::setting_in(options, "adb_server"@);
    let max_size = number_or(options::setting_in(options, "max_size"@), usual.max_size);
    let bit_rate = number_or(options::setting_in(options, "bit_rate"@), usual.bit_rate);
    let max_fps = number_or(options::setting_in(options, "max_fps"@), usual.max_fps);
    if server is Some && !(server->0 is Text) {
        Err("adb_server"@ + " must be a host:port string"@)
    } else if max_size is None {
        Err("max_size"@ + " must be a positive integer"@)
    } else if bit_rate is None {
        Err("bit_rate"@ + " must be a positive integer"@)
    } else if max_fps is None {
        Err("max_fps"@ + " must be a positive integer"@)
    } else {
        Ok(
            (
                match server {
                    Some(server) => server->Text_0,
                    None => "127.0.0.1:5037"@,
                },
                ScrcpyOptions {
                    max_size: max_size->0,
                    bit_rate: bit_rate->0,
                    max_fps: max_fps->0,
                },
            ),
        )
    }
}

/// The adb server's own port, and the default everywhere.
pub fn default_adb_server() -> (server: &'static str)
    ensures
        server@ == "127.0.0.1:5037"@,
{
    "127.0.0.1:5037"
}

fn number_option(value: &Option<OptionValue>, default: u32) -> (number: Option<u32>)
    ensures
        number == number_or(options::setting_view(*value), default),
{
    match value {
        None => Some(default),
        Some(OptionValue::Number { unsigned: Some(n), .. }) => Some((*n % 0x1_0000_0000) as u32),
        _ => None,
    }
}

impl AndroidOptions {
    /// Read a device's settings. A mistyped one is an error, not a silent
    /// default.
    pub fn parse(serial: &str, options: &serde_json::Map<String, serde_json::Value>) -> (parsed:
        Result<Self, OptionError>)
        ensures
            match parsed {
                Ok(parsed) => parsed.serial@ == serial@ && android_options_in(*options) == Ok::<
                    _,
                    Seq<char>,
                >((parsed.adb_server@, parsed.scrcpy)),
                Err(error) => android_options_in(*options) == Err::<
                    (Seq<char>, ScrcpyOptions),
                    Seq<char>,
                >(error@),
            },
    {
        Self::from_settings(
            serial,
            options::setting(options, "adb_server"),
            options::setting(options, "max_size"),
            options::setting(options, "bit_rate"),
            options::setting(options, "max_fps"),
        )
    }

    /// A device's settings from the four that are read.
    pub fn from_settings(
        serial: &str,
        adb_server: Option<OptionValue>,
        max_size: Option<OptionValue>,
        bit_rate: Option<OptionValue>,
        max_fps: Option<OptionValue>,
    ) -> (parsed: Result<Self, OptionError>)
        ensures
            ({
                let usual = ScrcpyOptions::usual();
                let server = options::setting_view(adb_server);
                let size = number_or(options::setting_view(max_size), usual.max_size);
                let rate = number_or(options::setting_view(bit_rate), usual.bit_rate);
                let fps = number_or(options::setting_view(max_fps), usual.max_fps);
                match parsed {
                    Ok(parsed) => {
                        &&& parsed.serial@ == serial@
                        &&& parsed.adb_server@ == match server {
                            Some(server) => server->Text_0,
                            None => "127.0.0.1:5037"@,
                        }
                        &&& server is Some ==> server->0 is Text
                        &&& size == Some(parsed.scrcpy.max_size)
                        &&& rate == Some(parsed.scrcpy.bit_rate)
                        &&& fps == Some(parsed.scrcpy.max_fps)
                    },
                    Err(error) => if server is Some && !(server->0 is Text) {
                        error@ == "adb_server"@ + " must be a host:port string"@
                    } else if size is None {
                        error@ == "max_size"@ + " must be a positive integer"@
                    } else if rate is None {
                        error@ == "bit_rate"@ + " must be a positive integer"@
                    } else {
                        fps is None && error@ == "max_fps"@ + " must be a positive integer"@
                    },
                }
            }),
    {
        let defaults = ScrcpyOptions::default();
        let server = match adb_server {
            None => default_adb_server().to_owned(),
            Some(OptionValue::Text(server)) => server,
            Some(_) => {
                return Err(options::option_error("adb_server", " must be a host:port string"));
            },
        };
        let max_size: u32 = match number_option(&max_size, defaults.max_size) {
            Some(n) => n,
            None => {
                return Err(options::option_error("max_size", " must be a positive integer"));
            },
        };
        let bit_rate: u32 = match number_option(&bit_rate, defaults.bit_rate) {
            Some(n) => n,
            None => {
                return Err(options::option_error("bit_rate", " must be a positive integer"));
            },
        };
        let max_fps: u32 = match number_option(&max_fps, defaults.max_fps) {
            Some(n) => n,
            None => {
                return Err(options::option_error("max_fps", " must be a positive integer"));
            },
        };
        Ok(
            AndroidOptions {
                serial: serial.to_owned(),
                adb_server: server,
                scrcpy: ScrcpyOptions { max_size, bit_rate, max_fps },
            },
        )
    }
}

/// The two numbers around the `x` of a size line.
pub open spec fn size_in(line: Seq<char>) -> Option<(int, int)> {
    match text::rsplit_once(line, ": "@) {
        None => None,
        Some((_, rest)) => match text::split_once(text::trim(rest), 'x') {
            None => None,
            Some((width, height)) => match (
                text::signed_in(text::trim(width)),
                text::signed_in(text::trim(height)),
            ) {
                (Some(width), Some(height)) => Some((width, height)),
                _ => None,
            },
        },
    }
}

/// The size that these lines give, after `physical` was read before them: that
/// of the first override line, else that of the last physical one.
pub open spec fn wm_size_in(lines: Seq<Seq<char>>, physical: Option<(int, int)>) -> Option<
    (int, int),
>
    decreases lines.len(),
{
    if lines.len() == 0 {
        physical
    } else if text::contains_text(lines[0], "Override size:"@) {
        size_in(lines[0])
    } else if text::contains_text(lines[0], "Physical size:"@) {
        wm_size_in(lines.drop_first(), size_in(lines[0]))
    } else {
        wm_size_in(lines.drop_first(), physical)
    }
}

/// A size as plain numbers.
pub open spec fn size_view(size: Option<(i64, i64)>) -> Option<(int, int)> {
    match size {
        Some((width, height)) => Some((width as int, height as int)),
        None => None,
    }
}

fn parse_size(line: &[char]) -> (size: Option<(i64, i64)>)
    ensures
        size_view(size) == size_in(line@),
{
    match text::behind_last_text(line, ": ") {
        None => None,
        Some(rest) => match text::parted(text::trimmed(rest), 'x') {
            None => None,
            Some((width, height)) => match (
                text::parse_signed(text::trimmed(width)),
                text::parse_signed(text::trimmed(height)),
            ) {
                (Some(width), Some(height)) => Some((width, height)),
                _ => None,
            },
        },
    }
}

/// `wm size` prints `Physical size: WxH` and, when the user has overridden the
/// resolution, an `Override size:` line that is what the device actually renders
/// at. The override wins when present.
pub fn parse_wm_size(output: &str) -> (size: Option<(i64, i64)>)
    ensures
        size_view(size) == wm_size_in(text::lines(output@), None),
{
    let chars = text::chars_of(output);
    let lines = text::lines_of(&chars);
    let ghost all = text::texts(lines@);
    let mut physical: Option<(i64, i64)> = None;
    let mut i: usize = 0;
    assert(all.skip(0) =~= all);
    while i < lines.len()
        invariant
            i <= lines@.len(),
            all == text::texts(lines@),
            all == text::lines(output@),
            wm_size_in(all, None) == wm_size_in(all.skip(i as int), size_view(physical)),
        decreases lines@.len() - i,
    {
        assert(all.skip(i as int)[0] == lines@[i as int]@);
        assert(all.skip(i as int).drop_first() =~= all.skip(i + 1));
        if text::holds(&lines[i], "Override size:") {
            return parse_size(&lines[i]);
        }
        if text::holds(&lines[i], "Physical size:") {
            physical = parse_size(&lines[i]);
        }
        i += 1;
    }
    physical
}

/// How many 90° steps lead from one rotation to another.
pub open spec fn steps_between(current: int, target: int) -> int {
    ((target - current) / 90) % 4
}

/// How many 90° steps to walk from `current` to `target`.
pub fn rotation_steps(current: i64, target: i64) -> (steps: i64)
    requires
        i64::MIN <= target - current <= i64::MAX,
    ensures
        steps == steps_between(current as int, target as int),
{
    let delta: i64 = target - current;
    // Floor division, as the walk goes one way only.
    let quarters: i64 = if delta >= 0 {
        delta / 90
    } else {
        let below: u64 = (-(delta + 1)) as u64;
        -((below / 90) as i64) - 1
    };
    assert(quarters == delta as int / 90);
    if quarters >= 0 {
        quarters % 4
    } else {
        let below: u64 = (-(quarters + 1)) as u64;
        3 - (below % 4) as i64
    }
}

/// Walking the steps ends at the target: between two quarter turns the steps
/// from one, taken 90° at a time, lead to the other.
pub proof fn law_the_steps_lead_to_the_target(current: int, target: int)
    requires
        current % 90 == 0,
        target % 90 == 0,
    ensures
        (current + 90 * steps_between(current, target)) % 360 == target % 360,
        0 <= steps_between(current, target) < 4,
{
    let quarters = (target - current) / 90;
    assert(target - current == 90 * quarters);
    assert(quarters == 4 * (quarters / 4) + quarters % 4);
    assert(target == current + 90 * (quarters % 4) + 360 * (quarters / 4));
}

/// What follows the first `key` in a line, up to the next.
pub open spec fn after_key(line: Seq<char>, key: Seq<char>) -> Option<Seq<char>> {
    match text::split_at_text(line, key, 0) {
        None => None,
        Some((_, rest)) => match text::split_at_text(rest, key, 0) {
            Some((first, _)) => Some(first),
            None => Some(rest),
        },
    }
}

/// How many characters come before the first white space or comma.
pub open spec fn token_len(s: Seq<char>) -> int
    decreases s.len(),
{
    if s.len() == 0 || text::is_white(s[0]) || s[0] == ',' {
        0
    } else {
        1 + token_len(s.drop_first())
    }
}

/// The rotation that a token stands for, in degrees. Up to three it counts
/// quarter turns; anything else is degrees already.
pub open spec fn rotation_in(token: Seq<char>) -> Option<int> {
    let digits = match text::strip_prefix(token, "ROTATION_"@) {
        Some(digits) => digits,
        None => token,
    };
    match text::signed_in(digits) {
        Some(value) => Some(
            if 0 <= value <= 3 {
                value * 90
            } else {
                value % 360
            },
        ),
        None => None,
    }
}

/// What the first line with this key says of the rotation; nothing where no line
/// has it.
pub open spec fn rotation_after(lines: Seq<Seq<char>>, key: Seq<char>) -> Option<Option<int>>
    decreases lines.len(),
{
    if lines.len() == 0 {
        None
    } else {
        match after_key(lines[0], key) {
            Some(rest) => Some(rotation_in(rest.take(token_len(rest)))),
            None => rotation_after(lines.drop_first(), key),
        }
    }
}

/// The rotation out of `dumpsys window displays`, by the first key that occurs.
pub open spec fn rotation_of(output: Seq<char>) -> Option<int> {
    let lines = text::lines(output);
    match rotation_after(lines, "mCurrentRotation="@) {
        Some(rotation) => rotation,
        None => match rotation_after(lines, "mRotation="@) {
            Some(rotation) => rotation,
            None => match rotation_after(lines, "rotation="@) {
                Some(rotation) => rotation,
                None => None,
            },
        },
    }
}

fn parse_rotation_token(rest: &[char]) -> (rotation: Option<i64>)
    ensures
        match rotation {
            Some(rotation) => rotation_in(rest@.take(token_len(rest@))) == Some(rotation as int),
            None => rotation_in(rest@.take(token_len(rest@))) is None,
        },
{
    let mut n: usize = 0;
    assert(rest@.skip(0) =~= rest@);
    while n < rest.len() && !text::is_white_char(rest[n]) && rest[n] != ','
        invariant
            n <= rest.len(),
            token_len(rest@) == n + token_len(rest@.skip(n as int)),
        decreases rest.len() - n,
    {
        assert(rest@.skip(n as int).drop_first() =~= rest@.skip(n + 1));
        n += 1;
    }
    assert(n < rest@.len() ==> rest@.skip(n as int)[0] == rest@[n as int]);
    let token = &rest[0..n];
    assert(token@ =~= rest@.take(token_len(rest@)));
    let digits = match text::after_prefix(token, "ROTATION_") {
        Some(digits) => digits,
        None => token,
    };
    match text::parse_signed(digits) {
        Some(value) => Some(
            if 0 <= value && value <= 3 {
                value * 90
            } else if value >= 0 {
                value % 360
            } else {
                let below: u64 = (-(value + 1)) as u64;
                359 - (below % 360) as i64
            },
        ),
        None => None,
    }
}

fn find_rotation(lines: &Vec<Vec<char>>, key: &str) -> (rotation: Option<Option<i64>>)
    ensures
        match rotation {
            Some(Some(rotation)) => rotation_after(text::texts(lines@), key@) == Some(
                Some(rotation as int),
            ),
            Some(None) => rotation_after(text::texts(lines@), key@) == Some(None::<int>),
            None => rotation_after(text::texts(lines@), key@) is None,
        },
{
    let ghost all = text::texts(lines@);
    let mut i: usize = 0;
    assert(all.skip(0) =~= all);
    while i < lines.len()
        invariant
            i <= lines@.len(),
            all == text::texts(lines@),
            rotation_after(all, key@) == rotation_after(all.skip(i as int), key@),
        decreases lines@.len() - i,
    {
        assert(all.skip(i as int)[0] == lines@[i as int]@);
        assert(all.skip(i as int).drop_first() =~= all.skip(i + 1));
        match text::parted_by(&lines[i], key) {
            Some((_, rest)) => {
                let first = match text::parted_by(rest, key) {
                    Some((first, _)) => first,
                    None => rest,
                };
                return Some(parse_rotation_token(first));
            },
            None => {},
        }
        i += 1;
    }
    None
}

/// Rotation out of `dumpsys window displays`, in degrees.
///
/// Two spellings in the wild: `mCurrentRotation=ROTATION_90` on Android 12 and
/// later, and a bare quarter-turn count (`mRotation=1`) before it. A quarter-turn
/// count is multiplied out; anything already in degrees is taken as it is.
pub fn parse_rotation(output: &str) -> (rotation: Option<i64>)
    ensures
        match rotation {
            Some(rotation) => rotation_of(output@) == Some(rotation as int),
            None => rotation_of(output@) is None,
        },
{
    let chars = text::chars_of(output);
    let lines = text::lines_of(&chars);
    match find_rotation(&lines, "mCurrentRotation=") {
        Some(rotation) => {
            return rotation;
        },
        None => {},
    }
    match find_rotation(&lines, "mRotation=") {
        Some(rotation) => {
            return rotation;
        },
        None => {},
    }
    match find_rotation(&lines, "rotation=") {
        Some(rotation) => rotation,
        None => None,
    }
}

/// The number after the last colon of a line.
pub open spec fn density_in(line: Seq<char>) -> Option<int> {
    match text::rsplit_once(line, ": "@) {
        Some((_, rest)) => text::signed_in(text::trim(rest)),
        None => None,
    }
}

/// The density of the first line that gives one.
pub open spec fn first_density(lines: Seq<Seq<char>>) -> Option<int>
    decreases lines.len(),
{
    if lines.len() == 0 {
        None
    } else if density_in(lines[0]) is Some {
        density_in(lines[0])
    } else {
        first_density(lines.drop_first())
    }
}

/// The density that `wm density` prints.
pub fn parse_density(output: &str) -> (density: Option<i64>)
    ensures
        match density {
            Some(density) => first_density(text::lines(output@)) == Some(density as int),
            None => first_density(text::lines(output@)) is None,
        },
{
    let chars = text::chars_of(output);
    let lines = text::lines_of(&chars);
    let ghost all = text::texts(lines@);
    let mut i: usize = 0;
    assert(all.skip(0) =~= all);
    while i < lines.len()
        invariant
            i <= lines@.len(),
            all == text::texts(lines@),
            all == text::lines(output@),
            first_density(all) == first_density(all.skip(i as int)),
        decreases lines@.len() - i,
    {
        assert(all.skip(i as int)[0] == lines@[i as int]@);
        assert(all.skip(i as int).drop_first() =~= all.skip(i + 1));
        match text::behind_last_text(&lines[i], ": ") {
            Some(rest) => {
                match text::parse_signed(text::trimmed(rest)) {
                    Some(density) => {
                        return Some(density);
                    },
                    None => {},
                }
            },
            None => {},
        }
        i += 1;
    }
    None
}

/// The value of a `name: value` line, without white space at its ends, where the
/// line is for this name.
pub open spec fn field_in(line: Seq<char>, name: Seq<char>) -> Option<Seq<char>> {
    match text::split_once(line, ':') {
        Some((key, value)) if text::trim(key) == name => Some(text::trim(value)),
        _ => None,
    }
}

/// The values of the lines for this name, in order.
pub open spec fn fields_in(lines: Seq<Seq<char>>, name: Seq<char>) -> Seq<Seq<char>>
    decreases lines.len(),
{
    if lines.len() == 0 {
        Seq::empty()
    } else {
        let before = fields_in(lines.drop_last(), name);
        match field_in(lines.last(), name) {
            Some(value) => before.push(value),
            None => before,
        }
    }
}

fn parse_field(line: &[char], name: &str) -> (value: Option<Vec<char>>)
    ensures
        match value {
            Some(value) => field_in(line@, name@) == Some(value@),
            None => field_in(line@, name@) is None,
        },
{
    match text::parted(line, ':') {
        Some((key, value)) => if text::reads(text::trimmed(key), name) {
            Some(vstd::slice::slice_to_vec(text::trimmed(value)))
        } else {
            None
        },
        None => None,
    }
}

/// The values that `dumpsys battery` gives for a name, in order. `level` is to be
/// read against `scale`, which is there because 0..100 is convention and no
/// guarantee.
pub fn battery_fields(dump: &str, name: &str) -> (values: Vec<String>)
    ensures
        text::strings(values@) == fields_in(text::lines(dump@), name@),
{
    let chars = text::chars_of(dump);
    let lines = text::lines_of(&chars);
    let ghost all = text::texts(lines@);
    let mut values: Vec<String> = Vec::new();
    let mut i: usize = 0;
    assert(all.take(0) =~= Seq::<Seq<char>>::empty());
    assert(text::strings(values@) =~= Seq::<Seq<char>>::empty());
    while i < lines.len()
        invariant
            i <= lines@.len(),
            all == text::texts(lines@),
            text::strings(values@) == fields_in(all.take(i as int), name@),
        decreases lines@.len() - i,
    {
        let ghost more = all.take(i + 1);
        let ghost before = values@;
        assert(more.drop_last() =~= all.take(i as int));
        assert(more.last() == lines@[i as int]@);
        match parse_field(&lines[i], name) {
            Some(value) => {
                values.push(text::string_of(&value));
                assert(text::strings(values@) =~= text::strings(before).push(value@));
            },
            None => {},
        }
        i += 1;
    }
    assert(all.take(i as int) =~= all);
    values
}

/// The number of the first `status:` line that holds one.
pub open spec fn first_status(lines: Seq<Seq<char>>) -> Option<int>
    decreases lines.len(),
{
    if lines.len() == 0 {
        None
    } else {
        match field_in(lines[0], "status"@) {
            Some(value) if text::signed_in(value) is Some => text::signed_in(value),
            _ => first_status(lines.drop_first()),
        }
    }
}

/// What Android's `BATTERY_STATUS_*` constants mean.
pub open spec fn status_text(status: int) -> Seq<char> {
    if status == 2 {
        "charging"@
    } else if status == 3 {
        "discharging"@
    } else if status == 4 {
        "not_charging"@
    } else if status == 5 {
        "full"@
    } else {
        "unknown"@
    }
}

/// What the battery is doing.
pub fn parse_battery_state(dump: &str) -> (state: Option<String>)
    ensures
        match state {
            Some(state) => first_status(text::lines(dump@)) is Some && state@ == status_text(
                first_status(text::lines(dump@))->0,
            ),
            None => first_status(text::lines(dump@)) is None,
        },
{
    let chars = text::chars_of(dump);
    let lines = text::lines_of(&chars);
    let ghost all = text::texts(lines@);
    let mut i: usize = 0;
    assert(all.skip(0) =~= all);
    while i < lines.len()
        invariant
            i <= lines@.len(),
            all == text::texts(lines@),
            all == text::lines(dump@),
            first_status(all) == first_status(all.skip(i as int)),
        decreases lines@.len() - i,
    {
        assert(all.skip(i as int)[0] == lines@[i as int]@);
        assert(all.skip(i as int).drop_first() =~= all.skip(i + 1));
        match parse_field(&lines[i], "status") {
            Some(value) => {
                match text::parse_signed(&value) {
                    Some(status) => {
                        let name = if status == 2 {
                            "charging"
                        } else if status == 3 {
                            "discharging"
                        } else if status == 4 {
                            "not_charging"
                        } else if status == 5 {
                            "full"
                        } else {
                            "unknown"
                        };
                        return Some(name.to_owned());
                    },
                    None => {},
                }
            },
            None => {},
        }
        i += 1;
    }
    None
}

/// The Android `KEYCODE_*` of a browser's `KeyboardEvent.key`.
pub open spec fn keycode_of(key: Seq<char>) -> Option<u32> {
    if key == "Enter"@ {
        Some(66)
    } else if key == "Backspace"@ {
        Some(67)
    } else if key == "Tab"@ {
        Some(61)
    } else if key == "Escape"@ {
        Some(111)
    } else if key == "ArrowUp"@ {
        Some(19)
    } else if key == "ArrowDown"@ {
        Some(20)
    } else if key == "ArrowLeft"@ {
        Some(21)
    } else if key == "ArrowRight"@ {
        Some(22)
    } else if key == "MoveHome"@ {
        Some(122)
    } else if key == "MoveEnd"@ {
        Some(123)
    } else if key == "Delete"@ {
        Some(112)
    } else if key == "PageUp"@ {
        Some(92)
    } else if key == "PageDown"@ {
        Some(93)
    } else if key == "Home"@ {
        Some(3)
    } else if key == "Back"@ {
        Some(4)
    } else if key == "AppSwitch"@ || key == "Recents"@ {
        Some(187)
    } else if key == "Power"@ {
        Some(26)
    } else if key == "VolumeUp"@ {
        Some(24)
    } else if key == "VolumeDown"@ {
        Some(25)
    } else {
        None
    }
}

/// The Android `KEYCODE_*` of a browser's `KeyboardEvent.key`.
///
/// Named keys only: printable characters arrive as text and go through
/// `INJECT_TEXT`. `Home` is the hardware button, which leaves whatever app is in
/// front; the keyboard's key is `MoveHome`.
pub fn keycode_for(key: &str) -> (code: Option<u32>)
    ensures
        code == keycode_of(key@),
{
    let chars = text::chars_of(key);
    if text::reads(&chars, "Enter") {
        Some(66)
    } else if text::reads(&chars, "Backspace") {
        Some(67)
    } else if text::reads(&chars, "Tab") {
        Some(61)
    } else if text::reads(&chars, "Escape") {
        Some(111)
    } else if text::reads(&chars, "ArrowUp") {
        Some(19)
    } else if text::reads(&chars, "ArrowDown") {
        Some(20)
    } else if text::reads(&chars, "ArrowLeft") {
        Some(21)
    } else if text::reads(&chars, "ArrowRight") {
        Some(22)
    } else if text::reads(&chars, "MoveHome") {
        Some(122)
    } else if text::reads(&chars, "MoveEnd") {
        Some(123)
    } else if text::reads(&chars, "Delete") {
        Some(112)
    } else if text::reads(&chars, "PageUp") {
        Some(92)
    } else if text::reads(&chars, "PageDown") {
        Some(93)
    } else if text::reads(&chars, "Home") {
        Some(3)
    } else if text::reads(&chars, "Back") {
        Some(4)
    } else if text::reads(&chars, "AppSwitch") || text::reads(&chars, "Recents") {
        Some(187)
    } else if text::reads(&chars, "Power") {
        Some(26)
    } else if text::reads(&chars, "VolumeUp") {
        Some(24)
    } else if text::reads(&chars, "VolumeDown") {
        Some(25)
    } else {
        None
    }
}

/// The port `adbd` is listening on, if any.
///
/// Devices disagree about how to say "not listening": some report `0`, others
/// `-1`, and some an empty string. Anything that is not a positive port number
/// means the same thing.
pub fn listening_port(value: &str) -> (port: Option<u16>)
    ensures
        match port {
            Some(port) => text::signed_in(text::trim(value@)) == Some(port as int) && port > 0,
            None => match text::signed_in(text::trim(value@)) {
                Some(n) => n <= 0 || n > u16::MAX,
                None => true,
            },
        },
{
    let chars = text::chars_of(value);
    match text::parse_signed(text::trimmed(&chars)) {
        Some(port) => if 0 < port && port <= 0xFFFF {
            Some(port as u16)
        } else {
            None
        },
        None => None,
    }
}

/// A short unique suffix for staged filenames, from the nanoseconds of the
/// current second. It only has to keep two concurrent installs on one device
/// from colliding.
pub fn staging_suffix(nanos: u32) -> (suffix: String)
    ensures
        suffix@ == text::hex(nanos as nat, 8, false),
{
    let mut out = String::new();
    text::push_hex(&mut out, nanos as u64, 8, false);
    assert(out@ =~= text::hex(nanos as nat, 8, false));
    out
}

/// The keys that Android knows by the browser's names for them, with the numbers that
/// Android gives them, in the order of those.
pub open spec fn android_keys() -> Seq<(Seq<char>, u32)> {
    seq![
        ("Home"@, 3u32),
        ("Back"@, 4),
        ("ArrowUp"@, 19),
        ("ArrowDown"@, 20),
        ("ArrowLeft"@, 21),
        ("ArrowRight"@, 22),
        ("VolumeUp"@, 24),
        ("VolumeDown"@, 25),
        ("Power"@, 26),
        ("Tab"@, 61),
        ("Enter"@, 66),
        ("Backspace"@, 67),
        ("PageUp"@, 92),
        ("PageDown"@, 93),
        ("Escape"@, 111),
        ("Delete"@, 112),
        ("MoveHome"@, 122),
        ("MoveEnd"@, 123),
        ("AppSwitch"@, 187),
        ("Recents"@, 187),
    ]
}

/// Every key that Android knows is sent as its own number, and no other key is sent.
pub proof fn law_keys_have_androids_numbers(i: int, key: Seq<char>)
    requires
        0 <= i < android_keys().len(),
    ensures
        keycode_of(android_keys()[i].0) == Some(android_keys()[i].1),
        (forall|k: int| 0 <= k < android_keys().len() ==> (#[trigger] android_keys()[k]).0 != key)
            ==> keycode_of(key) is None,
{
    reveal_strlit("Home");
    reveal_strlit("Back");
    reveal_strlit("ArrowUp");
    reveal_strlit("ArrowDown");
    reveal_strlit("ArrowLeft");
    reveal_strlit("ArrowRight");
    reveal_strlit("VolumeUp");
    reveal_strlit("VolumeDown");
    reveal_strlit("Power");
    reveal_strlit("Tab");
    reveal_strlit("Enter");
    reveal_strlit("Backspace");
    reveal_strlit("PageUp");
    reveal_strlit("PageDown");
    reveal_strlit("Escape");
    reveal_strlit("Delete");
    reveal_strlit("MoveHome");
    reveal_strlit("MoveEnd");
    reveal_strlit("AppSwitch");
    reveal_strlit("Recents");
    let table = android_keys();
    assert("Tab"@.len() == 3 && "Home"@.len() == 4 && "Back"@.len() == 4);
    assert("Enter"@.len() == 5 && "Power"@.len() == 5);
    assert("Escape"@.len() == 6 && "Delete"@.len() == 6 && "PageUp"@.len() == 6);
    assert("ArrowUp"@.len() == 7 && "MoveEnd"@.len() == 7 && "Recents"@.len() == 7);
    assert("MoveHome"@.len() == 8 && "PageDown"@.len() == 8 && "VolumeUp"@.len() == 8);
    assert("Backspace"@.len() == 9 && "ArrowDown"@.len() == 9 && "ArrowLeft"@.len() == 9);
    assert("AppSwitch"@.len() == 9 && "ArrowRight"@.len() == 10 && "VolumeDown"@.len() == 10);
    assert("Home"@[0] != "Back"@[0]);
    assert("Enter"@[0] != "Power"@[0]);
    assert("Escape"@[0] != "Delete"@[0] && "Escape"@[0] != "PageUp"@[0]);
    assert("Delete"@[0] != "PageUp"@[0]);
    assert("ArrowUp"@[0] != "MoveEnd"@[0] && "ArrowUp"@[0] != "Recents"@[0]);
    assert("MoveEnd"@[0] != "Recents"@[0]);
    assert("MoveHome"@[0] != "PageDown"@[0] && "MoveHome"@[0] != "VolumeUp"@[0]);
    assert("PageDown"@[0] != "VolumeUp"@[0]);
    assert("Backspace"@[0] != "ArrowDown"@[0] && "Backspace"@[0] != "ArrowLeft"@[0]);
    assert("Backspace"@[0] != "AppSwitch"@[0] && "ArrowDown"@[5] != "ArrowLeft"@[5]);
    assert("AppSwitch"@[1] != "ArrowDown"@[1] && "AppSwitch"@[1] != "ArrowLeft"@[1]);
    assert("ArrowRight"@[0] != "VolumeDown"@[0]);
    assert(i == 0 || i == 1 || i == 2 || i == 3 || i == 4 || i == 5 || i == 6 || i == 7 || i == 8
        || i == 9 || i == 10 || i == 11 || i == 12 || i == 13 || i == 14 || i == 15 || i == 16
        || i == 17 || i == 18 || i == 19);
    assert(table[0].0 == "Home"@ && table[1].0 == "Back"@ && table[2].0 == "ArrowUp"@);
    assert(table[3].0 == "ArrowDown"@ && table[4].0 == "ArrowLeft"@ && table[5].0 == "ArrowRight"@);
    assert(table[6].0 == "VolumeUp"@ && table[7].0 == "VolumeDown"@ && table[8].0 == "Power"@);
    assert(table[9].0 == "Tab"@ && table[10].0 == "Enter"@ && table[11].0 == "Backspace"@);
    assert(table[12].0 == "PageUp"@ && table[13].0 == "PageDown"@ && table[14].0 == "Escape"@);
    assert(table[15].0 == "Delete"@ && table[16].0 == "MoveHome"@ && table[17].0 == "MoveEnd"@);
    assert(table[18].0 == "AppSwitch"@ && table[19].0 == "Recents"@);
}

/// A quarter-turn count is multiplied out, and anything else is degrees already, of
/// which whole turns do not matter; the word in front of the newer spelling changes
/// nothing.
pub proof fn law_a_rotation_is_told_in_degrees(n: nat)
    requires
        n <= i64::MAX,
    ensures
        n <= 3 ==> rotation_in(text::decimal(n)) == Some((n * 90) as int),
        n > 3 ==> rotation_in(text::decimal(n)) == Some((n % 360) as int),
        rotation_in("ROTATION_"@ + text::decimal(n)) == rotation_in(text::decimal(n)),
{
    reveal_strlit("ROTATION_");
    text::law_decimal_reads_back(n);
    let digits = text::decimal(n);
    let spelt = "ROTATION_"@ + digits;
    assert(digits[0] != 'R' && digits[0] != '-') by {
        lemma_starts_with_digit(n);
    }
    assert(!"ROTATION_"@.is_prefix_of(digits)) by {
        if "ROTATION_"@.is_prefix_of(digits) {
            assert(digits[0] == "ROTATION_"@[0]);
        }
    }
    assert("ROTATION_"@.is_prefix_of(spelt)) by {
        assert(spelt.take("ROTATION_"@.len() as int) =~= "ROTATION_"@);
    }
    assert(spelt.skip("ROTATION_"@.len() as int) =~= digits);
}

proof fn lemma_starts_with_digit(n: nat)
    ensures
        text::decimal(n).len() > 0,
        '0' <= text::decimal(n)[0] <= '9',
    decreases n,
{
    if n >= 10 {
        lemma_starts_with_digit(n / 10);
        assert(text::decimal(n)[0] == text::decimal(n / 10)[0]);
    }
}

/// An override wins over whatever else is said of the size: the first line that tells
/// one decides, wherever it stands and whatever follows it. Without one, the last line
/// that tells the panel's own size does.
pub proof fn law_an_override_decides_the_size(
    before: Seq<Seq<char>>,
    line: Seq<char>,
    after: Seq<Seq<char>>,
    physical: Option<(int, int)>,
)
    requires
        forall|i: int|
            0 <= i < before.len() ==> !text::contains_text(
                #[trigger] before[i],
                "Override size:"@,
            ),
    ensures
        text::contains_text(line, "Override size:"@) ==> wm_size_in(
            before + seq![line] + after,
            physical,
        ) == size_in(line),
        !text::contains_text(line, "Override size:"@) && text::contains_text(
            line,
            "Physical size:"@,
        ) ==> wm_size_in(before + seq![line], physical) == size_in(line),
    decreases before.len(),
{
    let all = before + seq![line] + after;
    let short = before + seq![line];
    if before.len() == 0 {
        assert(all[0] == line && short[0] == line);
        assert(short.drop_first() =~= Seq::<Seq<char>>::empty());
        assert(wm_size_in(short.drop_first(), size_in(line)) == size_in(line));
    } else {
        let rest = before.drop_first();
        assert(all[0] == before[0] && short[0] == before[0]);
        assert(all.drop_first() =~= rest + seq![line] + after);
        assert(short.drop_first() =~= rest + seq![line]);
        assert forall|i: int| 0 <= i < rest.len() implies !text::contains_text(
            #[trigger] rest[i],
            "Override size:"@,
        ) by {
            assert(rest[i] == before[i + 1]);
        }
        let next = if text::contains_text(before[0], "Physical size:"@) {
            size_in(before[0])
        } else {
            physical
        };
        law_an_override_decides_the_size(rest, line, after, next);
    }
}

/// What Android's numbers for the state of a battery mean. A state that it has no
/// number for is not known.
pub proof fn law_battery_states_have_androids_numbers(status: int)
    ensures
        status_text(1) == "unknown"@,
        status_text(2) == "charging"@,
        status_text(3) == "discharging"@,
        status_text(4) == "not_charging"@,
        status_text(5) == "full"@,
        !(1 <= status <= 5) ==> status_text(status) == "unknown"@,
{
}

/// A rotation is what stands behind its key, up to white space or a comma, in the first
/// line that has that key.
pub proof fn law_a_rotation_stands_behind_its_key(
    earlier: Seq<Seq<char>>,
    before: Seq<char>,
    key: Seq<char>,
    token: Seq<char>,
    after: Seq<char>,
    later: Seq<Seq<char>>,
)
    requires
        forall|i: int| 0 <= i < earlier.len() ==> !text::contains_text(#[trigger] earlier[i], key),
        forall|i: int|
            0 <= i < before.len() ==> !#[trigger] text::stands_at(
                before + key + (token + after),
                key,
                i,
            ),
        !text::contains_text(token + after, key),
        forall|i: int| 0 <= i < token.len() ==> !text::is_white(#[trigger] token[i]) && token[i] != ',',
        after.len() == 0 || text::is_white(after[0]) || after[0] == ',',
    ensures
        rotation_after(earlier + seq![before + key + (token + after)] + later, key) == Some(
            rotation_in(token),
        ),
    decreases earlier.len(),
{
    let line = before + key + (token + after);
    let lines = earlier + seq![line] + later;
    if earlier.len() == 0 {
        assert(lines[0] == line);
        let at = before.len() as int;
        assert(line.subrange(at, at + key.len()) =~= key);
        text::lemma_first_stands(line, key, 0, at);
        let rest = line.skip((at + key.len()) as int);
        assert(rest =~= token + after);
        lemma_token_is(token, after);
        assert(rest.take(token.len() as int) =~= token);
    } else {
        let fewer = earlier.drop_first();
        assert forall|i: int| 0 <= i < fewer.len() implies !text::contains_text(
            #[trigger] fewer[i],
            key,
        ) by {
            assert(fewer[i] == earlier[i + 1]);
        }
        assert(lines[0] == earlier[0]);
        assert(lines.drop_first() =~= fewer + seq![line] + later);
        law_a_rotation_stands_behind_its_key(fewer, before, key, token, after, later);
    }
}

proof fn lemma_token_is(token: Seq<char>, after: Seq<char>)
    requires
        forall|i: int| 0 <= i < token.len() ==> !text::is_white(#[trigger] token[i]) && token[i] != ',',
        after.len() == 0 || text::is_white(after[0]) || after[0] == ',',
    ensures
        token_len(token + after) == token.len(),
    decreases token.len(),
{
    let s = token + after;
    if token.len() == 0 {
        assert(s =~= after);
    } else {
        assert(s[0] == token[0]);
        assert(s.drop_first() =~= token.drop_first() + after);
        lemma_token_is(token.drop_first(), after);
    }
}

proof fn lemma_key_is_missing(lines: Seq<Seq<char>>, key: Seq<char>)
    requires
        forall|i: int| 0 <= i < lines.len() ==> !text::contains_text(#[trigger] lines[i], key),
    ensures
        rotation_after(lines, key) is None,
    decreases lines.len(),
{
    if lines.len() > 0 {
        let rest = lines.drop_first();
        assert forall|i: int| 0 <= i < rest.len() implies !text::contains_text(
            #[trigger] rest[i],
            key,
        ) by {
            assert(rest[i] == lines[i + 1]);
        }
        lemma_key_is_missing(rest, key);
    }
}

/// Of the three keys that a rotation goes by the current one counts wherever it stands,
/// and another only in an output that has none of those before it.
pub proof fn law_the_current_rotation_counts_first(output: Seq<char>)
    ensures
        ({
            let lines = text::lines(output);
            let lacks = |key: Seq<char>|
                forall|i: int|
                    0 <= i < lines.len() ==> !text::contains_text(#[trigger] lines[i], key);
            let current = rotation_after(lines, "mCurrentRotation="@);
            let own = rotation_after(lines, "mRotation="@);
            let plain = rotation_after(lines, "rotation="@);
            &&& current is Some ==> rotation_of(output) == current->0
            &&& lacks("mCurrentRotation="@) && own is Some ==> rotation_of(output) == own->0
            &&& lacks("mCurrentRotation="@) && lacks("mRotation="@) && plain is Some
                ==> rotation_of(output) == plain->0
            &&& lacks("mCurrentRotation="@) && lacks("mRotation="@) && lacks("rotation="@)
                ==> rotation_of(output) is None
        }),
{
    let lines = text::lines(output);
    if forall|i: int|
        0 <= i < lines.len() ==> !text::contains_text(#[trigger] lines[i], "mCurrentRotation="@) {
        lemma_key_is_missing(lines, "mCurrentRotation="@);
        if forall|i: int|
            0 <= i < lines.len() ==> !text::contains_text(#[trigger] lines[i], "mRotation="@) {
            lemma_key_is_missing(lines, "mRotation="@);
            if forall|i: int|
                0 <= i < lines.len() ==> !text::contains_text(#[trigger] lines[i], "rotation="@) {
                lemma_key_is_missing(lines, "rotation="@);
            }
        }
    }
}

/// Each option has its own name, a number is what it says, and what is not given is as
/// usual.
pub proof fn law_each_option_goes_by_its_name(
    options: serde_json::Map<String, serde_json::Value>,
    server: Seq<char>,
    size: u32,
    rate: u32,
    fps: u32,
)
    ensures
        ({
            let given = |key: Seq<char>, n: u32|
                options::setting_in(options, key) matches Some(
                    options::OptionValueView::Number { unsigned: Some(m), .. },
                ) && m == n;
            let lacks = |key: Seq<char>| options::setting_in(options, key) is None;
            let read = android_options_in(options);
            &&& options::setting_in(options, "adb_server"@) == Some(
                options::OptionValueView::Text(server),
            ) && given("max_size"@, size) && given("bit_rate"@, rate) && given("max_fps"@, fps)
                ==> read == Ok::<_, Seq<char>>(
                (server, ScrcpyOptions { max_size: size, bit_rate: rate, max_fps: fps }),
            )
            &&& lacks("adb_server"@) && lacks("max_size"@) && lacks("bit_rate"@) && lacks(
                "max_fps"@,
            ) ==> read == Ok::<_, Seq<char>>(
                (
                    "127.0.0.1:5037"@,
                    ScrcpyOptions { max_size: 1280, bit_rate: 8_000_000, max_fps: 60 },
                ),
            )
        }),
{
}

/// An option that is there has to be a number that is not below zero.
pub proof fn law_an_option_that_is_no_number_is_refused(
    value: options::OptionValueView,
    usual: u32,
)
    ensures
        !(value is Number) ==> number_or(Some(value), usual) is None,
        (value matches options::OptionValueView::Number { unsigned, .. } && unsigned is None)
            ==> number_or(Some(value), usual) is None,
        number_or(None, usual) == Some(usual),
{
}

} // verus!
