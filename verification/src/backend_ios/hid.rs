//! HID input: the tables, and what goes out for each action.
//!
//! Reports are sent in the order in which actions arrive, by a single owner. A
//! reordered move-before-down turns a swipe into a tap; a reordered
//! up-before-move pins a contact to the glass.

use crate::clock::MILLISECOND;
use crate::text;
use vstd::prelude::*;

verus! {

/// Touchscreen reports carry 16-bit coordinates normalised across the screen,
/// not pixels.
pub const HID_MAX: u16 = 65535;

/// HID usage page for the consumer controls the hardware buttons live on.
pub const USAGE_PAGE_CONSUMER: u64 = 0x0C;

/// Left shift, for typing characters that need it.
pub const KEY_LEFT_SHIFT: u64 = 0xE1;

/// The usage of a hardware button and how many milliseconds it is held, by its
/// name in lower case.
pub open spec fn button_of(name: Seq<char>) -> Option<(u64, u64)> {
    if name == "home"@ {
        Some((0x40, 50))
    } else if name == "power"@ || name == "lock"@ {
        Some((0x30, 500))
    } else if name == "volumeup"@ || name == "volume_up"@ || name == "volume-up"@ {
        Some((0xE9, 50))
    } else if name == "volumedown"@ || name == "volume_down"@ || name == "volume-down"@ {
        Some((0xEA, 50))
    } else if name == "mute"@ {
        Some((0xE2, 50))
    } else if name == "siri"@ {
        Some((0xCF, 1000))
    } else {
        None
    }
}

/// The usage page and usage of a hardware button and how long it is held, by
/// its name in any case.
pub open spec fn named_button_of(name: Seq<char>) -> Option<(u64, u64, u64)> {
    match button_of(text::ascii_lowered(name)) {
        Some((usage, hold)) => Some((USAGE_PAGE_CONSUMER, usage, (hold * MILLISECOND) as u64)),
        None => None,
    }
}

/// A hardware button's usage page, usage and hold, by its name in any case.
///
/// The hold durations are not cosmetic: the device distinguishes a lock press
/// from a power-off hold, and Siri needs a long press to trigger at all.
pub fn named_button(name: &str) -> (button: Option<(u64, u64, u64)>)
    ensures
        button == named_button_of(name@),
{
    let chars = text::chars_of(name);
    let name = text::lowered(&chars);
    let (usage, hold): (u64, u64) = if text::reads(&name, "home") {
        (0x40, 50)
    } else if text::reads(&name, "power") || text::reads(&name, "lock") {
        (0x30, 500)
    } else if text::reads(&name, "volumeup") || text::reads(&name, "volume_up") || text::reads(
        &name,
        "volume-up",
    ) {
        (0xE9, 50)
    } else if text::reads(&name, "volumedown") || text::reads(&name, "volume_down") || text::reads(
        &name,
        "volume-down",
    ) {
        (0xEA, 50)
    } else if text::reads(&name, "mute") {
        (0xE2, 50)
    } else if text::reads(&name, "siri") {
        (0xCF, 1000)
    } else {
        return None;
    };
    Some((USAGE_PAGE_CONSUMER, usage, hold * MILLISECOND))
}

/// The usage of a key that prints nothing, by the browser's own name for it.
pub open spec fn special_key_of(name: Seq<char>) -> Option<u64> {
    if name == "Enter"@ {
        Some(0x28)
    } else if name == "Escape"@ {
        Some(0x29)
    } else if name == "Backspace"@ {
        Some(0x2A)
    } else if name == "Tab"@ {
        Some(0x2B)
    } else if name == "CapsLock"@ {
        Some(0x39)
    } else if name == "Delete"@ {
        Some(0x4C)
    } else if name == "ArrowRight"@ {
        Some(0x4F)
    } else if name == "ArrowLeft"@ {
        Some(0x50)
    } else if name == "ArrowDown"@ {
        Some(0x51)
    } else if name == "ArrowUp"@ {
        Some(0x52)
    } else {
        None
    }
}

/// The usage of a key that prints nothing. The names are the browser's own
/// `KeyboardEvent.key` values.
pub fn special_key(name: &str) -> (usage: Option<u64>)
    ensures
        usage == special_key_of(name@),
{
    let name = text::chars_of(name);
    if text::reads(&name, "Enter") {
        Some(0x28)
    } else if text::reads(&name, "Escape") {
        Some(0x29)
    } else if text::reads(&name, "Backspace") {
        Some(0x2A)
    } else if text::reads(&name, "Tab") {
        Some(0x2B)
    } else if text::reads(&name, "CapsLock") {
        Some(0x39)
    } else if text::reads(&name, "Delete") {
        Some(0x4C)
    } else if text::reads(&name, "ArrowRight") {
        Some(0x4F)
    } else if text::reads(&name, "ArrowLeft") {
        Some(0x50)
    } else if text::reads(&name, "ArrowDown") {
        Some(0x51)
    } else if text::reads(&name, "ArrowUp") {
        Some(0x52)
    } else {
        None
    }
}

/// The key that types a character, and whether it needs shift.
pub open spec fn key_for(character: char) -> Option<(u64, bool)> {
    if 'a' <= character <= 'z' {
        Some(((0x04 + (character as u64 - 'a' as u64)) as u64, false))
    } else if 'A' <= character <= 'Z' {
        Some(((0x04 + (character as u64 - 'A' as u64)) as u64, true))
    } else if '1' <= character <= '9' {
        Some(((0x1E + (character as u64 - '1' as u64)) as u64, false))
    } else if character == '0' {
        Some((0x27, false))
    } else if character == '\n' || character == '\r' {
        Some((0x28, false))
    } else if character == '\x1b' {
        Some((0x29, false))
    } else if character == '\x08' || character == '\x7f' {
        Some((0x2A, false))
    } else if character == '\t' {
        Some((0x2B, false))
    } else if character == ' ' {
        Some((0x2C, false))
    } else if character == '-' {
        Some((0x2D, false))
    } else if character == '=' {
        Some((0x2E, false))
    } else if character == '[' {
        Some((0x2F, false))
    } else if character == ']' {
        Some((0x30, false))
    } else if character == '\\' {
        Some((0x31, false))
    } else if character == ';' {
        Some((0x33, false))
    } else if character == '\'' {
        Some((0x34, false))
    } else if character == '`' {
        Some((0x35, false))
    } else if character == ',' {
        Some((0x36, false))
    } else if character == '.' {
        Some((0x37, false))
    } else if character == '/' {
        Some((0x38, false))
    } else if character == '!' {
        Some((0x1E, true))
    } else if character == '@' {
        Some((0x1F, true))
    } else if character == '#' {
        Some((0x20, true))
    } else if character == '$' {
        Some((0x21, true))
    } else if character == '%' {
        Some((0x22, true))
    } else if character == '^' {
        Some((0x23, true))
    } else if character == '&' {
        Some((0x24, true))
    } else if character == '*' {
        Some((0x25, true))
    } else if character == '(' {
        Some((0x26, true))
    } else if character == ')' {
        Some((0x27, true))
    } else if character == '_' {
        Some((0x2D, true))
    } else if character == '+' {
        Some((0x2E, true))
    } else if character == '{' {
        Some((0x2F, true))
    } else if character == '}' {
        Some((0x30, true))
    } else if character == '|' {
        Some((0x31, true))
    } else if character == ':' {
        Some((0x33, true))
    } else if character == '"' {
        Some((0x34, true))
    } else if character == '~' {
        Some((0x35, true))
    } else if character == '<' {
        Some((0x36, true))
    } else if character == '>' {
        Some((0x37, true))
    } else if character == '?' {
        Some((0x38, true))
    } else {
        None
    }
}

/// The key that types a character, and whether it needs shift.
pub fn ascii_to_hid(character: char) -> (key: Option<(u64, bool)>)
    ensures
        key == key_for(character),
{
    if 'a' <= character && character <= 'z' {
        Some((0x04 + (character as u64 - 'a' as u64), false))
    } else if 'A' <= character && character <= 'Z' {
        Some((0x04 + (character as u64 - 'A' as u64), true))
    } else if '1' <= character && character <= '9' {
        Some((0x1E + (character as u64 - '1' as u64), false))
    } else if character == '0' {
        Some((0x27, false))
    } else if character == '\n' || character == '\r' {
        Some((0x28, false))
    } else if character == '\x1b' {
        Some((0x29, false))
    } else if character == '\x08' || character == '\x7f' {
        Some((0x2A, false))
    } else if character == '\t' {
        Some((0x2B, false))
    } else if character == ' ' {
        Some((0x2C, false))
    } else if character == '-' {
        Some((0x2D, false))
    } else if character == '=' {
        Some((0x2E, false))
    } else if character == '[' {
        Some((0x2F, false))
    } else if character == ']' {
        Some((0x30, false))
    } else if character == '\\' {
        Some((0x31, false))
    } else if character == ';' {
        Some((0x33, false))
    } else if character == '\'' {
        Some((0x34, false))
    } else if character == '`' {
        Some((0x35, false))
    } else if character == ',' {
        Some((0x36, false))
    } else if character == '.' {
        Some((0x37, false))
    } else if character == '/' {
        Some((0x38, false))
    } else if character == '!' {
        Some((0x1E, true))
    } else if character == '@' {
        Some((0x1F, true))
    } else if character == '#' {
        Some((0x20, true))
    } else if character == '$' {
        Some((0x21, true))
    } else if character == '%' {
        Some((0x22, true))
    } else if character == '^' {
        Some((0x23, true))
    } else if character == '&' {
        Some((0x24, true))
    } else if character == '*' {
        Some((0x25, true))
    } else if character == '(' {
        Some((0x26, true))
    } else if character == ')' {
        Some((0x27, true))
    } else if character == '_' {
        Some((0x2D, true))
    } else if character == '+' {
        Some((0x2E, true))
    } else if character == '{' {
        Some((0x2F, true))
    } else if character == '}' {
        Some((0x30, true))
    } else if character == '|' {
        Some((0x31, true))
    } else if character == ':' {
        Some((0x33, true))
    } else if character == '"' {
        Some((0x34, true))
    } else if character == '~' {
        Some((0x35, true))
    } else if character == '<' {
        Some((0x36, true))
    } else if character == '>' {
        Some((0x37, true))
    } else if character == '?' {
        Some((0x38, true))
    } else {
        None
    }
}

/// No two characters are typed alike, but for the two line ends and the two
/// ways to rub out.
pub proof fn law_typing_is_unambiguous(a: char, b: char)
    requires
        key_for(a) is Some,
        key_for(a) == key_for(b),
    ensures
        a == b || (key_for(a)->0).0 == 0x28 || (key_for(a)->0).0 == 0x2A,
{
}

/// The letters lie on the keyboard page in the order of the alphabet, from the
/// fifth usage on, and the digits after them in the order of the keyboard's top row,
/// of which zero is the last.
pub proof fn law_letters_and_digits_lie_in_order(c: char, d: char)
    requires
        d as u32 == c as u32 + 1,
    ensures
        key_for('a') == Some((0x04u64, false)),
        'a' <= c && d <= 'z' ==> key_for(c) is Some && key_for(d) == Some(
            (((key_for(c)->0).0 + 1) as u64, false),
        ),
        'A' <= c && d <= 'Z' ==> key_for(c) is Some && key_for(d) == Some(
            (((key_for(c)->0).0 + 1) as u64, true),
        ),
        key_for('1') == Some((((key_for('z')->0).0 + 1) as u64, false)),
        '1' <= c && d <= '9' ==> key_for(c) is Some && key_for(d) == Some(
            (((key_for(c)->0).0 + 1) as u64, false),
        ),
        key_for('0') == Some((((key_for('9')->0).0 + 1) as u64, false)),
{
}

/// What is printed on the keys of a US keyboard that hold no letter, without shift and
/// with it, in the order in which they lie on the keyboard page.
pub open spec fn key_caps() -> Seq<(char, char)> {
    seq![
        ('1', '!'),
        ('2', '@'),
        ('3', '#'),
        ('4', '$'),
        ('5', '%'),
        ('6', '^'),
        ('7', '&'),
        ('8', '*'),
        ('9', '('),
        ('0', ')'),
        ('-', '_'),
        ('=', '+'),
        ('[', '{'),
        (']', '}'),
        ('\\', '|'),
        (';', ':'),
        ('\'', '"'),
        ('`', '~'),
        (',', '<'),
        ('.', '>'),
        ('/', '?'),
    ]
}

/// Every other key types what is printed on it: shift tells its two characters apart
/// and nothing else, and the keys lie in the order of the keyboard page, between the
/// keys that print nothing.
pub proof fn law_keys_type_what_is_printed_on_them(i: int)
    requires
        0 <= i < key_caps().len(),
    ensures
        ({
            let (plain, shifted) = key_caps()[i];
            let usage = if i < 10 {
                0x1E + i
            } else if i < 15 {
                0x2D + (i - 10)
            } else {
                0x33 + (i - 15)
            };
            &&& key_for(plain) == Some((usage as u64, false))
            &&& key_for(shifted) == Some((usage as u64, true))
        }),
{
    let caps = key_caps();
    if i < 5 {
        assert(i == 0 || i == 1 || i == 2 || i == 3 || i == 4);
    } else if i < 10 {
        assert(i == 5 || i == 6 || i == 7 || i == 8 || i == 9);
    } else if i < 15 {
        assert(i == 10 || i == 11 || i == 12 || i == 13 || i == 14);
    } else {
        assert(i == 15 || i == 16 || i == 17 || i == 18 || i == 19 || i == 20);
    }
}

/// A key that prints nothing is the same key by its name and by the control character
/// that stands for it, and those that move the cursor lie next to each other.
pub proof fn law_named_keys_are_the_keys_of_their_characters()
    ensures
        special_key_of("Enter"@) == Some((key_for('\n')->0).0) && key_for('\n') is Some,
        key_for('\r') == key_for('\n'),
        special_key_of("Escape"@) == Some((key_for('\x1b')->0).0) && key_for('\x1b') is Some,
        special_key_of("Backspace"@) == Some((key_for('\x08')->0).0) && key_for('\x08') is Some,
        key_for('\x7f') == key_for('\x08'),
        special_key_of("Tab"@) == Some((key_for('\t')->0).0) && key_for('\t') is Some,
        key_for('\n') == Some((((key_for('0')->0).0 + 1) as u64, false)),
        key_for('\x1b') == Some((((key_for('\n')->0).0 + 1) as u64, false)),
        key_for('\x08') == Some((((key_for('\x1b')->0).0 + 1) as u64, false)),
        key_for('\t') == Some((((key_for('\x08')->0).0 + 1) as u64, false)),
        key_for(' ') == Some((((key_for('\t')->0).0 + 1) as u64, false)),
        key_for('-') == Some((((key_for(' ')->0).0 + 1) as u64, false)),
        special_key_of("CapsLock"@) == Some(((key_for('/')->0).0 + 1) as u64),
        special_key_of("Delete"@) == Some(0x4Cu64),
        special_key_of("ArrowRight"@) == Some(0x4Fu64),
        special_key_of("ArrowLeft"@) == Some((special_key_of("ArrowRight"@)->0 + 1) as u64),
        special_key_of("ArrowDown"@) == Some((special_key_of("ArrowLeft"@)->0 + 1) as u64),
        special_key_of("ArrowUp"@) == Some((special_key_of("ArrowDown"@)->0 + 1) as u64),
{
    reveal_strlit("Enter");
    reveal_strlit("Escape");
    reveal_strlit("Backspace");
    reveal_strlit("Tab");
    reveal_strlit("CapsLock");
    reveal_strlit("Delete");
    reveal_strlit("ArrowRight");
    reveal_strlit("ArrowLeft");
    reveal_strlit("ArrowDown");
    reveal_strlit("ArrowUp");
    assert("Enter"@.len() == 5 && "Escape"@.len() == 6 && "Backspace"@.len() == 9);
    assert("Tab"@.len() == 3 && "CapsLock"@.len() == 8 && "Delete"@.len() == 6);
    assert("ArrowRight"@.len() == 10 && "ArrowLeft"@.len() == 9 && "ArrowDown"@.len() == 9);
    assert("ArrowUp"@.len() == 7);
    assert("ArrowRight"@[5] != "ArrowLeft"@[5]);
    assert("Escape"@[0] != "Delete"@[0]);
    assert("Backspace"@[0] != "ArrowLeft"@[0] && "Backspace"@[0] != "ArrowDown"@[0]);
    assert("ArrowLeft"@[5] != "ArrowDown"@[5]);
}

/// Typing a text presses the keys of its characters one after the other, each with
/// shift down around it exactly where the character needs it, and passes over those
/// that no key types.
pub proof fn law_typing_presses_each_key_in_turn(typed: Seq<char>, c: char)
    ensures
        all_reports(inputs_for_text(typed.push(c))) == all_reports(inputs_for_text(typed))
            + match key_for(c) {
            None => Seq::empty(),
            Some((usage, shift)) => {
                let press = seq![
                    Report::Key { usage, down: true },
                    Report::Key { usage, down: false },
                ];
                if shift {
                    seq![Report::Key { usage: 0xE1, down: true }] + press + seq![
                        Report::Key { usage: 0xE1, down: false },
                    ]
                } else {
                    press
                }
            },
        },
        all_reports(inputs_for_text(Seq::empty())) == Seq::<Report>::empty(),
{
    let more = typed.push(c);
    assert(more.drop_last() =~= typed);
    let inputs = inputs_for_text(typed);
    let all = inputs.push(Input::Character(c));
    assert(all.drop_last() =~= inputs);
    match key_for(c) {
        Some((usage, shift)) => {
            let press = seq![
                Report::Key { usage, down: true },
                Report::Key { usage, down: false },
            ];
            if shift {
                assert(reports_of(Input::Character(c)) =~= seq![
                    Report::Key { usage: 0xE1, down: true },
                ] + press + seq![Report::Key { usage: 0xE1, down: false }]);
            } else {
                assert(reports_of(Input::Character(c)) =~= press);
            }
        },
        None => {
            assert(reports_of(Input::Character(c)) =~= Seq::<Report>::empty());
        },
    }
}

/// A letter's two cases are one key, and shift makes the difference.
pub proof fn law_shift_tells_the_cases_apart(capital: char)
    requires
        'A' <= capital <= 'Z',
    ensures
        key_for(capital) is Some,
        (key_for(capital)->0).1,
        key_for(text::ascii_lower(capital)) == Some(((key_for(capital)->0).0, false)),
{
}

/// A hardware button answers to its name in any case.
pub proof fn law_button_names_ignore_case(a: Seq<char>, b: Seq<char>)
    requires
        text::ascii_lowered(a) == text::ascii_lowered(b),
    ensures
        named_button_of(a) == named_button_of(b),
{
}

/// Which way up a device says it is.
#[derive(Debug, Clone, Copy, PartialEq, Eq, Structural)]
pub enum Orientation {
    Portrait,
    PortraitUpsideDown,
    LandscapeLeft,
    LandscapeRight,
    FaceUp,
    FaceDown,
    Unknown,
}

/// An orientation in degrees clockwise from portrait. Lying flat says nothing
/// about how the screen is drawn.
pub open spec fn degrees_of(orientation: Orientation) -> Option<i64> {
    match orientation {
        Orientation::Portrait => Some(0),
        Orientation::LandscapeLeft => Some(90),
        Orientation::PortraitUpsideDown => Some(180),
        Orientation::LandscapeRight => Some(270),
        Orientation::FaceUp | Orientation::FaceDown | Orientation::Unknown => None,
    }
}

/// An orientation in degrees clockwise from portrait.
///
/// The landscape names say where the device's *left edge* went, not how the
/// picture turned: `LandscapeLeft` is the phone rotated so its home edge is on
/// the right, which reads as the screen having turned 90° clockwise.
pub fn orientation_degrees(orientation: &Orientation) -> (degrees: Option<i64>)
    ensures
        degrees == degrees_of(*orientation),
{
    match orientation {
        Orientation::Portrait => Some(0),
        Orientation::LandscapeLeft => Some(90),
        Orientation::PortraitUpsideDown => Some(180),
        Orientation::LandscapeRight => Some(270),
        Orientation::FaceUp | Orientation::FaceDown | Orientation::Unknown => None,
    }
}

/// One action, applied in the order in which it was queued.
#[derive(Debug, Clone, Copy, PartialEq, Eq, Structural)]
pub enum Input {
    /// An in-contact touchscreen sample.
    Contact { x: u16, y: u16 },
    /// Lift the contact at this point.
    Release { x: u16, y: u16 },
    /// Type one character through the virtual keyboard.
    Character(char),
    /// Press and release a bare keyboard usage.
    KeyUsage(u64),
    /// Press a hardware button, hold it and release it.
    Button { page: u64, usage: u64, hold: u64 },
}

/// One thing that is done on the device for an action.
#[derive(Debug, Clone, Copy, PartialEq, Eq, Structural)]
pub enum Report {
    Touch { contact: bool, x: u16, y: u16 },
    Key { usage: u64, down: bool },
    Button { page: u64, usage: u64, down: bool },
    /// Wait this long.
    Hold(u64),
}

/// What is done on the device for an action, in order.
pub open spec fn reports_of(input: Input) -> Seq<Report> {
    match input {
        Input::Contact { x, y } => seq![Report::Touch { contact: true, x, y }],
        Input::Release { x, y } => seq![Report::Touch { contact: false, x, y }],
        Input::Character(character) => match key_for(character) {
            None => seq![],
            Some((usage, true)) => seq![
                Report::Key { usage: KEY_LEFT_SHIFT, down: true },
                Report::Key { usage, down: true },
                Report::Key { usage, down: false },
                Report::Key { usage: KEY_LEFT_SHIFT, down: false },
            ],
            Some((usage, false)) => seq![
                Report::Key { usage, down: true },
                Report::Key { usage, down: false },
            ],
        },
        Input::KeyUsage(usage) => seq![
            Report::Key { usage, down: true },
            Report::Key { usage, down: false },
        ],
        Input::Button { page, usage, hold } => seq![
            Report::Button { page, usage, down: true },
            Report::Hold(hold),
            Report::Button { page, usage, down: false },
        ],
    }
}

/// What is done on the device for an action, in order. A character that cannot
/// be typed is skipped.
pub fn reports(input: &Input) -> (reports: Vec<Report>)
    ensures
        reports@ == reports_of(*input),
{
    let mut out: Vec<Report> = Vec::new();
    match *input {
        Input::Contact { x, y } => out.push(Report::Touch { contact: true, x, y }),
        Input::Release { x, y } => out.push(Report::Touch { contact: false, x, y }),
        Input::Character(character) => {
            if let Some((usage, shift)) = ascii_to_hid(character) {
                if shift {
                    out.push(Report::Key { usage: KEY_LEFT_SHIFT, down: true });
                }
                out.push(Report::Key { usage, down: true });
                out.push(Report::Key { usage, down: false });
                if shift {
                    out.push(Report::Key { usage: KEY_LEFT_SHIFT, down: false });
                }
            }
        },
        Input::KeyUsage(usage) => {
            out.push(Report::Key { usage, down: true });
            out.push(Report::Key { usage, down: false });
        },
        Input::Button { page, usage, hold } => {
            out.push(Report::Button { page, usage, down: true });
            out.push(Report::Hold(hold));
            out.push(Report::Button { page, usage, down: false });
        },
    }
    assert(out@ =~= reports_of(*input));
    out
}

/// What one edge of a key asks for: hardware buttons are edge-triggered, so
/// only the down edge acts.
pub open spec fn input_for_key(name: Seq<char>, down: bool) -> Option<Input> {
    if !down {
        None
    } else if let Some((page, usage, hold)) = named_button_of(name) {
        Some(Input::Button { page, usage, hold })
    } else if let Some(usage) = special_key_of(name) {
        Some(Input::KeyUsage(usage))
    } else {
        None
    }
}

/// What one edge of a key asks for. The device wants a press, a hold and a
/// release, not a down and an up, so the up edge is swallowed.
pub fn key_input(name: &str, down: bool) -> (input: Option<Input>)
    ensures
        input == input_for_key(name@, down),
{
    if !down {
        return None;
    }
    if let Some((page, usage, hold)) = named_button(name) {
        Some(Input::Button { page, usage, hold })
    } else if let Some(usage) = special_key(name) {
        Some(Input::KeyUsage(usage))
    } else {
        None
    }
}

/// What typing a text asks for, a character at a time.
pub open spec fn inputs_for_text(typed: Seq<char>) -> Seq<Input>
    decreases typed.len(),
{
    if typed.len() == 0 {
        seq![]
    } else {
        inputs_for_text(typed.drop_last()).push(Input::Character(typed.last()))
    }
}

/// What typing a text asks for, a character at a time.
pub fn text_inputs(typed: &str) -> (inputs: Vec<Input>)
    ensures
        inputs@ == inputs_for_text(typed@),
{
    let chars = text::chars_of(typed);
    let mut out: Vec<Input> = Vec::new();
    let mut i: usize = 0;
    while i < chars.len()
        invariant
            chars@ == typed@,
            i <= chars@.len(),
            out@ == inputs_for_text(typed@.take(i as int)),
        decreases chars@.len() - i,
    {
        out.push(Input::Character(chars[i]));
        i += 1;
        assert(typed@.take(i as int).drop_last() =~= typed@.take(i - 1));
    }
    assert(typed@.take(typed@.len() as int) =~= typed@);
    out
}

/// The keys and buttons that are down, by page and usage; a key's page is 0.
pub open spec fn held_after(held: Set<(u64, u64)>, reports: Seq<Report>) -> Set<(u64, u64)>
    decreases reports.len(),
{
    if reports.len() == 0 {
        held
    } else {
        let before = held_after(held, reports.drop_last());
        match reports.last() {
            Report::Key { usage, down: true } => before.insert((0, usage)),
            Report::Key { usage, down: false } => before.remove((0, usage)),
            Report::Button { page, usage, down: true } => before.insert((page, usage)),
            Report::Button { page, usage, down: false } => before.remove((page, usage)),
            _ => before,
        }
    }
}

/// Everything that is done on the device for several actions.
pub open spec fn all_reports(inputs: Seq<Input>) -> Seq<Report>
    decreases inputs.len(),
{
    if inputs.len() == 0 {
        seq![]
    } else {
        all_reports(inputs.drop_last()) + reports_of(inputs.last())
    }
}

proof fn lemma_held_after_both(held: Set<(u64, u64)>, a: Seq<Report>, b: Seq<Report>)
    ensures
        held_after(held, a + b) == held_after(held_after(held, a), b),
    decreases b.len(),
{
    if b.len() == 0 {
        assert(a + b =~= a);
    } else {
        assert((a + b).drop_last() =~= a + b.drop_last());
        lemma_held_after_both(held, a, b.drop_last());
    }
}

/// Whatever is queued, no key and no button is left down.
pub proof fn law_every_press_is_released(inputs: Seq<Input>)
    ensures
        held_after(Set::empty(), all_reports(inputs)) == Set::<(u64, u64)>::empty(),
    decreases inputs.len(),
{
    let none = Set::<(u64, u64)>::empty();
    if inputs.len() > 0 {
        law_every_press_is_released(inputs.drop_last());
        lemma_held_after_both(none, all_reports(inputs.drop_last()), reports_of(inputs.last()));
        let last = reports_of(inputs.last());
        reveal_with_fuel(held_after, 5);
        assert(held_after(none, last) =~= none);
    }
}

/// The hardware buttons by their names, with their usages on the consumer page and how
/// many milliseconds each is held.
pub open spec fn buttons() -> Seq<(Seq<char>, u64, u64)> {
    seq![
        ("power"@, 0x30u64, 500u64),
        ("lock"@, 0x30, 500),
        ("home"@, 0x40, 50),
        ("siri"@, 0xCF, 1000),
        ("mute"@, 0xE2, 50),
        ("volumeup"@, 0xE9, 50),
        ("volume_up"@, 0xE9, 50),
        ("volume-up"@, 0xE9, 50),
        ("volumedown"@, 0xEA, 50),
        ("volume_down"@, 0xEA, 50),
        ("volume-down"@, 0xEA, 50),
    ]
}

/// Every hardware button is pressed by its own usage and held for as long as it takes,
/// and there is no other.
pub proof fn law_buttons_have_their_usages(i: int, name: Seq<char>)
    requires
        0 <= i < buttons().len(),
    ensures
        button_of(buttons()[i].0) == Some((buttons()[i].1, buttons()[i].2)),
        text::ascii_lowered(name) == buttons()[i].0 ==> named_button_of(name) == Some(
            (0x0Cu64, buttons()[i].1, (buttons()[i].2 * 1_000_000) as u64),
        ),
        (forall|k: int|
            0 <= k < buttons().len() ==> (#[trigger] buttons()[k]).0 != text::ascii_lowered(name))
            ==> named_button_of(name) is None,
{
    reveal_strlit("power");
    reveal_strlit("lock");
    reveal_strlit("home");
    reveal_strlit("siri");
    reveal_strlit("mute");
    reveal_strlit("volumeup");
    reveal_strlit("volume_up");
    reveal_strlit("volume-up");
    reveal_strlit("volumedown");
    reveal_strlit("volume_down");
    reveal_strlit("volume-down");
    let table = buttons();
    assert("power"@.len() == 5 && "lock"@.len() == 4 && "home"@.len() == 4 && "siri"@.len() == 4);
    assert("mute"@.len() == 4 && "volumeup"@.len() == 8 && "volume_up"@.len() == 9);
    assert("volume-up"@.len() == 9 && "volumedown"@.len() == 10 && "volume_down"@.len() == 11);
    assert("volume-down"@.len() == 11);
    assert("lock"@[0] != "home"@[0] && "lock"@[0] != "siri"@[0] && "lock"@[0] != "mute"@[0]);
    assert("home"@[0] != "siri"@[0] && "home"@[0] != "mute"@[0] && "siri"@[0] != "mute"@[0]);
    assert(table[0].0 == "power"@ && table[1].0 == "lock"@ && table[2].0 == "home"@);
    assert(table[3].0 == "siri"@ && table[4].0 == "mute"@ && table[5].0 == "volumeup"@);
    assert(table[6].0 == "volume_up"@ && table[7].0 == "volume-up"@);
    assert(table[8].0 == "volumedown"@ && table[9].0 == "volume_down"@);
    assert(table[10].0 == "volume-down"@);
    assert(i == 0 || i == 1 || i == 2 || i == 3 || i == 4 || i == 5 || i == 6 || i == 7 || i == 8
        || i == 9 || i == 10);
}

/// A key acts on its way down and only then: as a button where it names one, and else
/// as the key that it names.
pub proof fn law_keys_act_on_their_way_down(name: Seq<char>)
    ensures
        input_for_key(name, false) is None,
        named_button_of(name) matches Some((page, usage, hold)) ==> input_for_key(name, true)
            == Some(Input::Button { page, usage, hold }),
        named_button_of(name) is None ==> input_for_key(name, true) == match special_key_of(name) {
            Some(usage) => Some(Input::KeyUsage(usage)),
            None => None,
        },
{
}

/// A touch is reported where it is, down while there is contact and up when it is
/// lifted, and a button is pressed, held for as long as was asked for, and released.
pub proof fn law_touches_and_buttons_are_reported_as_they_are(
    x: u16,
    y: u16,
    page: u64,
    usage: u64,
    hold: u64,
)
    ensures
        reports_of(Input::Contact { x, y }) == seq![Report::Touch { contact: true, x, y }],
        reports_of(Input::Release { x, y }) == seq![Report::Touch { contact: false, x, y }],
        reports_of(Input::KeyUsage(usage)) == seq![
            Report::Key { usage, down: true },
            Report::Key { usage, down: false },
        ],
        ({
            let pressed = reports_of(Input::Button { page, usage, hold });
            &&& pressed.len() == 3
            &&& pressed[0] == (Report::Button { page, usage, down: true })
            &&& pressed[1] == Report::Hold(hold)
            &&& pressed[2] == (Report::Button { page, usage, down: false })
        }),
{
}

/// The four orientations are quarter turns, clockwise from portrait, and lying flat is
/// none of them.
pub proof fn law_orientations_are_quarter_turns()
    ensures
        degrees_of(Orientation::Portrait) == Some(0i64),
        degrees_of(Orientation::LandscapeLeft) == Some(90i64),
        degrees_of(Orientation::PortraitUpsideDown) == Some(180i64),
        degrees_of(Orientation::LandscapeRight) == Some(270i64),
        degrees_of(Orientation::FaceUp) is None,
        degrees_of(Orientation::FaceDown) is None,
        degrees_of(Orientation::Unknown) is None,
{
}

} // verus!
