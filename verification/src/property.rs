//! Property lists, as a device's services answer in them.

use vstd::prelude::*;

verus! {

/// `plist::Dictionary`, the values that a property list holds by their keys.
#[verifier::external_type_specification]
#[verifier::external_body]
pub struct ExDictionary(plist::Dictionary);

/// `plist::Value`, one value of a property list.
#[verifier::external_type_specification]
#[verifier::external_body]
pub struct ExValue(plist::Value);

/// One value of a property list, as far as values are read.
pub enum Property<'a> {
    Flag(bool),
    /// The integer without a sign, where it has none.
    Integer(Option<u64>),
    Text(String),
    Table(&'a plist::Dictionary),
    /// A number that is no integer, a date, raw bytes or an array.
    Other,
}

/// One value of a property list, as far as values are read.
pub enum PropertyView {
    Flag(bool),
    Integer(Option<u64>),
    Text(Seq<char>),
    Table(Map<Seq<char>, PropertyView>),
    Other,
}

impl<'a> View for Property<'a> {
    type V = PropertyView;

    open spec fn view(&self) -> PropertyView {
        match *self {
            Property::Flag(value) => PropertyView::Flag(value),
            Property::Integer(value) => PropertyView::Integer(value),
            Property::Text(text) => PropertyView::Text(text@),
            Property::Table(values) => PropertyView::Table(properties_in(*values)),
            Property::Other => PropertyView::Other,
        }
    }
}

/// The values that a dictionary holds, by their keys.
pub uninterp spec fn properties_in(values: plist::Dictionary) -> Map<Seq<char>, PropertyView>;

/// `plist::Dictionary::get`, and `plist::Integer::as_unsigned` on an integer:
/// the value under this key, if there is one.
#[verifier::external_body]
pub(crate) fn property<'a>(values: &'a plist::Dictionary, key: &str) -> (value: Option<Property<'a>>)
    ensures
        property_view(value) == entry_at(properties_in(*values), key@),
{
    Some(match values.get(key)? {
        plist::Value::Boolean(value) => Property::Flag(*value),
        plist::Value::Integer(value) => Property::Integer(value.as_unsigned()),
        plist::Value::String(text) => Property::Text(text.clone()),
        plist::Value::Dictionary(values) => Property::Table(values),
        _ => Property::Other,
    })
}

/// The values that a property list holds by their keys: none where it is no
/// dictionary.
pub uninterp spec fn table_in(value: plist::Value) -> Map<Seq<char>, PropertyView>;

/// `plist::Value::as_dictionary`: the dictionary that a property list is, if it
/// is one.
#[verifier::external_body]
pub(crate) fn dictionary_of(value: &plist::Value) -> (values: Option<&plist::Dictionary>)
    ensures
        match values {
            Some(values) => table_in(*value) == properties_in(*values),
            None => table_in(*value) == Map::<Seq<char>, PropertyView>::empty(),
        },
{
    value.as_dictionary()
}

/// What a binary property list starts with: `bplist00`.
pub const BINARY_MAGIC: [u8; 8] = [0x62, 0x70, 0x6c, 0x69, 0x73, 0x74, 0x30, 0x30];

/// How an element for a date starts: `<date`.
pub const DATE_TAG: [u8; 5] = [0x3c, 0x64, 0x61, 0x74, 0x65];

/// How one with a prefix to its name goes on: `:date`.
pub const DATE_NAME: [u8; 5] = [0x3a, 0x64, 0x61, 0x74, 0x65];

/// Whether `pattern` stands at `at` in `bytes`.
pub open spec fn stands_at(bytes: Seq<u8>, pattern: Seq<u8>, at: int) -> bool {
    0 <= at && at + pattern.len() <= bytes.len() && bytes.subrange(at, at + pattern.len())
        == pattern
}

/// Whether a byte ends the name of an XML element: white space or the end of the
/// tag.
pub open spec fn ends_name(byte: u8) -> bool {
    byte == 0x20 || byte == 0x09 || byte == 0x0a || byte == 0x0d || byte == 0x3e
}

/// Whether the date that begins at `at`, if one does, is told in the plain way: an
/// element without prefix or attributes, whose text begins with a year before
/// 9000.
pub open spec fn date_is_plain(bytes: Seq<u8>, at: int) -> bool {
    let end = at + 5;
    end < bytes.len() && ends_name(bytes[end]) ==> {
        &&& !stands_at(bytes, DATE_NAME@, at)
        &&& stands_at(bytes, DATE_TAG@, at) ==> bytes[end] == 0x3e && end + 1 < bytes.len() && 0x30
            <= bytes[end + 1] <= 0x38
    }
}

/// Whether bytes can be read as a property list: they are a binary one, or every
/// date in them is told in the plain way.
pub open spec fn is_readable(bytes: Seq<u8>) -> bool {
    stands_at(bytes, BINARY_MAGIC@, 0) || forall|at: int|
        0 <= at < bytes.len() ==> #[trigger] date_is_plain(bytes, at)
}

fn reads_at(bytes: &[u8], pattern: &[u8], at: usize) -> (found: bool)
    requires
        at <= bytes@.len(),
    ensures
        found == stands_at(bytes@, pattern@, at as int),
{
    if bytes.len() - at < pattern.len() {
        return false;
    }
    let mut i: usize = 0;
    while i < pattern.len()
        invariant
            i <= pattern@.len(),
            at + pattern.len() <= bytes.len(),
            forall|k: int| 0 <= k < i ==> bytes@[at + k] == pattern@[k],
        decreases pattern@.len() - i,
    {
        if bytes[at + i] != pattern[i] {
            assert(bytes@.subrange(at as int, at + pattern@.len())[i as int] != pattern@[i as int]);
            return false;
        }
        i += 1;
    }
    assert(bytes@.subrange(at as int, at + pattern@.len()) =~= pattern@);
    true
}

fn name_ends(byte: u8) -> (ends: bool)
    ensures
        ends == ends_name(byte),
{
    byte == 0x20 || byte == 0x09 || byte == 0x0a || byte == 0x0d || byte == 0x3e
}

/// Whether bytes can be read as a property list.
pub fn readable(bytes: &[u8]) -> (readable: bool)
    ensures
        readable == is_readable(bytes@),
{
    if reads_at(bytes, BINARY_MAGIC.as_slice(), 0) {
        return true;
    }
    let mut at: usize = 0;
    while at < bytes.len()
        invariant
            at <= bytes@.len(),
            !stands_at(bytes@, BINARY_MAGIC@, 0),
            forall|k: int| 0 <= k < at ==> #[trigger] date_is_plain(bytes@, k),
        decreases bytes@.len() - at,
    {
        if bytes.len() - at > 5 && name_ends(bytes[at + 5]) {
            let plain = bytes[at + 5] == 0x3e && bytes.len() - at > 6 && bytes[at + 6] >= 0x30
                && bytes[at + 6] <= 0x38;
            if reads_at(bytes, DATE_NAME.as_slice(), at) || (!plain && reads_at(
                bytes,
                DATE_TAG.as_slice(),
                at,
            )) {
                assert(!date_is_plain(bytes@, at as int));
                return false;
            }
        }
        assert(date_is_plain(bytes@, at as int));
        at += 1;
    }
    true
}

/// The values in the dictionary that these bytes are the property list of.
pub uninterp spec fn decoded_table(bytes: Seq<u8>) -> Option<Map<Seq<char>, PropertyView>>;

/// `plist::Value::from_reader` over the bytes, and `plist::Value::into_dictionary`:
/// the dictionary that these bytes are the property list of, which follows from
/// the bytes alone. There is none where they are no property list, or that of
/// something else. A date in XML is moved to UTC, which panics where that leaves
/// the year 9999, so such dates are kept out.
#[verifier::external_body]
pub(crate) fn decoded(bytes: &[u8]) -> (values: Option<plist::Dictionary>)
    requires
        is_readable(bytes@),
    ensures
        (match values {
            Some(values) => Some(properties_in(values)),
            None => None,
        }) == decoded_table(bytes@),
{
    plist::Value::from_reader(std::io::Cursor::new(bytes)).ok()?.into_dictionary()
}

/// The value under a key, if there is one.
pub open spec fn entry_at(table: Map<Seq<char>, PropertyView>, key: Seq<char>) -> Option<
    PropertyView,
> {
    if table.contains_key(key) {
        Some(table[key])
    } else {
        None
    }
}

/// A value that may not be there.
pub open spec fn property_view(value: Option<Property>) -> Option<PropertyView> {
    match value {
        Some(value) => Some(value@),
        None => None,
    }
}

/// The value under this key, if there is one.
pub open spec fn property_at(values: plist::Dictionary, key: Seq<char>) -> Option<PropertyView> {
    entry_at(properties_in(values), key)
}

/// A value that is a text.
pub open spec fn text_of(value: Option<PropertyView>) -> Option<Seq<char>> {
    match value {
        Some(PropertyView::Text(text)) => Some(text),
        _ => None,
    }
}

/// A value that is a flag.
pub open spec fn flag_of(value: Option<PropertyView>) -> Option<bool> {
    match value {
        Some(PropertyView::Flag(flag)) => Some(flag),
        _ => None,
    }
}

/// A value that is a flag, or an integer that stands for one.
pub open spec fn truth_of(value: Option<PropertyView>) -> Option<bool> {
    match value {
        Some(PropertyView::Flag(flag)) => Some(flag),
        Some(PropertyView::Integer(Some(n))) => Some(n != 0),
        _ => None,
    }
}

/// A value that is an integer without a sign.
pub open spec fn unsigned_of(value: Option<PropertyView>) -> Option<u64> {
    match value {
        Some(PropertyView::Integer(n)) => n,
        _ => None,
    }
}

/// A value that is a dictionary.
pub open spec fn table_of(value: Option<PropertyView>) -> Option<Map<Seq<char>, PropertyView>> {
    match value {
        Some(PropertyView::Table(table)) => Some(table),
        _ => None,
    }
}

/// A value that is a text.
pub fn as_text(value: Option<Property>) -> (text: Option<String>)
    ensures
        crate::text::text_in(text) == text_of(property_view(value)),
{
    match value {
        Some(Property::Text(text)) => Some(text),
        _ => None,
    }
}

/// A value that is a flag.
pub fn as_flag(value: Option<Property>) -> (flag: Option<bool>)
    ensures
        flag == flag_of(property_view(value)),
{
    match value {
        Some(Property::Flag(flag)) => Some(flag),
        _ => None,
    }
}

/// A value that is a flag, or an integer that stands for one.
pub fn as_truth(value: Option<Property>) -> (truth: Option<bool>)
    ensures
        truth == truth_of(property_view(value)),
{
    match value {
        Some(Property::Flag(flag)) => Some(flag),
        Some(Property::Integer(Some(n))) => Some(n != 0),
        _ => None,
    }
}

/// A value that is an integer without a sign.
pub fn as_unsigned(value: Option<Property>) -> (n: Option<u64>)
    ensures
        n == unsigned_of(property_view(value)),
{
    match value {
        Some(Property::Integer(n)) => n,
        _ => None,
    }
}

/// A value that is a dictionary.
pub fn as_table(value: Option<Property<'_>>) -> (values: Option<&plist::Dictionary>)
    ensures
        match values {
            Some(values) => table_of(property_view(value)) == Some(properties_in(*values)),
            None => table_of(property_view(value)) is None,
        },
{
    match value {
        Some(Property::Table(values)) => Some(values),
        _ => None,
    }
}

/// The dictionary under a key, or the values themselves where there is none.
/// Some services nest their answer under its own name, and some do not.
pub fn section<'a>(values: &'a plist::Dictionary, key: &str) -> (section: &'a plist::Dictionary)
    ensures
        properties_in(*section) == match table_of(property_at(*values, key@)) {
            Some(nested) => nested,
            None => properties_in(*values),
        },
{
    match as_table(property(values, key)) {
        Some(nested) => nested,
        None => values,
    }
}

} // verus!
