//! What the provider makes of its configuration.

use crate::device::Platform;
use crate::options;
use crate::options::OptionValue;
use crate::text;
use vstd::prelude::*;

verus! {

/// Whether browsers take the public address for a secure context: over https, or
/// on the same machine.
pub open spec fn is_secure(base: Seq<char>) -> bool {
    ||| "https://"@.is_prefix_of(base)
    ||| text::contains_text(base, "localhost"@)
    ||| text::contains_text(base, "127.0.0.1"@)
}

/// Whether browsers take the public address for a secure context, outside of
/// which they refuse to decode video.
pub fn is_secure_base(base: &str) -> (secure: bool)
    ensures
        secure == is_secure(base@),
{
    let chars = text::chars_of(base);
    text::after_prefix(&chars, "https://").is_some() || text::holds(&chars, "localhost")
        || text::holds(&chars, "127.0.0.1")
}

/// The name under which a device goes: its own, or its udid.
pub fn device_name(name: Option<String>, udid: &str) -> (out: String)
    ensures
        out@ == match name {
            Some(name) => name@,
            None => udid@,
        },
{
    match name {
        Some(name) => name,
        None => udid.to_owned(),
    }
}

/// The platform that a synthetic device stands for.
pub open spec fn platform_of(setting: Option<options::OptionValueView>) -> Platform {
    match setting {
        Some(options::OptionValueView::Text(platform)) if platform == "android"@ => Platform::Android,
        _ => Platform::Ios,
    }
}

/// The platform that a synthetic device stands for, by its settings: Android
/// where they say so, and else iOS.
pub fn mock_platform(options: &serde_json::Map<String, serde_json::Value>) -> (platform: Platform)
    ensures
        platform == platform_of(options::setting_in(*options, "platform"@)),
{
    match options::setting(options, "platform") {
        Some(OptionValue::Text(platform)) => {
            if text::same_text(&platform, "android") {
                Platform::Android
            } else {
                Platform::Ios
            }
        },
        _ => Platform::Ios,
    }
}

/// A mock is an Android device exactly where its options say so.
pub proof fn law_a_mock_is_what_its_options_say(value: options::OptionValueView)
    ensures
        platform_of(Some(options::OptionValueView::Text("android"@))) == Platform::Android,
        value != options::OptionValueView::Text("android"@) ==> platform_of(Some(value))
            == Platform::Ios,
        platform_of(None) == Platform::Ios,
{
}

/// Whatever is served over TLS is secure, and so is whatever this machine serves itself.
pub proof fn law_local_and_encrypted_addresses_are_secure(before: Seq<char>, rest: Seq<char>)
    ensures
        is_secure("https://"@ + rest),
        is_secure(before + "localhost"@ + rest),
        is_secure(before + "127.0.0.1"@ + rest),
        is_secure(rest) && !"https://"@.is_prefix_of(rest) ==> text::contains_text(
            rest,
            "localhost"@,
        ) || text::contains_text(rest, "127.0.0.1"@),
{
    assert("https://"@.is_prefix_of("https://"@ + rest));
    text::law_a_text_holds_what_stands_in_it(before, "localhost"@, rest);
    text::law_a_text_holds_what_stands_in_it(before, "127.0.0.1"@, rest);
}

} // verus!
