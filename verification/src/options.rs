//! A device's settings, as they stand in the provider's configuration.

use crate::text;
use vstd::prelude::*;
use vstd::string::*;

verus! {

/// `serde_json::Map`, the object that holds a device's settings.
#[verifier::external_type_specification]
#[verifier::external_body]
#[verifier::reject_recursive_types(K)]
#[verifier::reject_recursive_types(V)]
pub struct ExJsonMap<K, V>(serde_json::Map<K, V>);

/// `serde_json::Value`, one JSON value.
#[verifier::external_type_specification]
#[verifier::external_body]
pub struct ExJsonValue(serde_json::Value);

/// One setting, as far as settings are read.
pub enum OptionValue {
    Null,
    Bool(bool),
    /// The number as an unsigned and as a signed integer, where it is one.
    Number { unsigned: Option<u64>, signed: Option<i64> },
    Text(String),
    List,
    Object,
}

/// One setting, as far as settings are read.
pub enum OptionValueView {
    Null,
    Bool(bool),
    Number { unsigned: Option<u64>, signed: Option<i64> },
    Text(Seq<char>),
    List,
    Object,
}

impl View for OptionValue {
    type V = OptionValueView;

    open spec fn view(&self) -> OptionValueView {
        match *self {
            OptionValue::Null => OptionValueView::Null,
            OptionValue::Bool(value) => OptionValueView::Bool(value),
            OptionValue::Number { unsigned, signed } => OptionValueView::Number {
                unsigned,
                signed,
            },
            OptionValue::Text(text) => OptionValueView::Text(text@),
            OptionValue::List => OptionValueView::List,
            OptionValue::Object => OptionValueView::Object,
        }
    }
}

/// The settings that an object holds, by their keys.
pub uninterp spec fn settings_in(
    options: serde_json::Map<String, serde_json::Value>,
) -> Map<Seq<char>, OptionValueView>;

/// `serde_json::Map::get`, and `as_u64` and `as_i64` on a number: the setting
/// with this key, if there is one.
#[verifier::external_body]
pub(crate) fn setting(
    options: &serde_json::Map<String, serde_json::Value>,
    key: &str,
) -> (value: Option<OptionValue>)
    ensures
        setting_view(value) == (if settings_in(*options).contains_key(key@) {
            Some(settings_in(*options)[key@])
        } else {
            None
        }),
{
    Some(match options.get(key)? {
        serde_json::Value::Null => OptionValue::Null,
        serde_json::Value::Bool(value) => OptionValue::Bool(*value),
        serde_json::Value::Number(number) => {
            OptionValue::Number { unsigned: number.as_u64(), signed: number.as_i64() }
        },
        serde_json::Value::String(text) => OptionValue::Text(text.clone()),
        serde_json::Value::Array(_) => OptionValue::List,
        serde_json::Value::Object(_) => OptionValue::Object,
    })
}

/// A setting that may not be there.
pub open spec fn setting_view(value: Option<OptionValue>) -> Option<OptionValueView> {
    match value {
        Some(value) => Some(value@),
        None => None,
    }
}

/// The setting with this key, if there is one.
pub open spec fn setting_in(
    options: serde_json::Map<String, serde_json::Value>,
    key: Seq<char>,
) -> Option<OptionValueView> {
    if settings_in(options).contains_key(key) {
        Some(settings_in(options)[key])
    } else {
        None
    }
}

/// Why a setting cannot be used: what is said of its key.
#[derive(Debug)]
pub struct OptionError {
    pub message: String,
}

impl View for OptionError {
    type V = Seq<char>;

    open spec fn view(&self) -> Seq<char> {
        self.message@
    }
}

/// What is said of a setting that cannot be used.
pub fn option_error(key: &str, complaint: &str) -> (error: OptionError)
    ensures
        error@ == key@ + complaint@,
{
    let mut message = String::new();
    message.append(key);
    message.append(complaint);
    assert(message@ =~= key@ + complaint@);
    OptionError { message }
}

} // verus!
