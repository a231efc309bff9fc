//! The way to a device: who it is, where it is found, and whether it will do.

use crate::order;
use crate::property;
use crate::text;
use vstd::prelude::*;
use vstd::string::*;

verus! {

/// Who a device is.
#[derive(Debug)]
pub struct DeviceIdentity {
    pub name: String,
    pub product_type: String,
    pub version: String,
    pub build: String,
    pub serial: String,
    pub cpu: String,
}

/// Who a device is.
#[verifier::ext_equal]
pub struct DeviceIdentityView {
    pub name: Seq<char>,
    pub product_type: Seq<char>,
    pub version: Seq<char>,
    pub build: Seq<char>,
    pub serial: Seq<char>,
    pub cpu: Seq<char>,
}

impl View for DeviceIdentity {
    type V = DeviceIdentityView;

    open spec fn view(&self) -> DeviceIdentityView {
        DeviceIdentityView {
            name: self.name@,
            product_type: self.product_type@,
            version: self.version@,
            build: self.build@,
            serial: self.serial@,
            cpu: self.cpu@,
        }
    }
}

/// A text that is there and not empty, or another in its place.
pub open spec fn filled_or(value: Option<Seq<char>>, default: Seq<char>) -> Seq<char> {
    if value is Some && value->0.len() > 0 {
        value->0
    } else {
        default
    }
}

fn filled(value: Option<String>, default: &str) -> (out: String)
    ensures
        out@ == filled_or(text::text_in(value), default@),
{
    match value {
        Some(value) => {
            if value.as_str().is_empty() {
                default.to_owned()
            } else {
                value
            }
        },
        None => default.to_owned(),
    }
}

/// Who a device is, from what it says of itself. One without a name goes by its
/// udid.
pub open spec fn identity_of(
    udid: Seq<char>,
    name: Option<Seq<char>>,
    product_type: Option<Seq<char>>,
    version: Option<Seq<char>>,
    build: Option<Seq<char>>,
    serial: Option<Seq<char>>,
    cpu: Option<Seq<char>>,
) -> DeviceIdentityView {
    DeviceIdentityView {
        name: filled_or(name, udid),
        product_type: filled_or(product_type, ""@),
        version: filled_or(version, ""@),
        build: filled_or(build, ""@),
        serial: filled_or(serial, ""@),
        cpu: filled_or(cpu, "arm64"@),
    }
}

/// A text that a device gives under a key.
pub open spec fn text_under(values: plist::Dictionary, key: Seq<char>) -> Option<Seq<char>> {
    property::text_of(property::property_at(values, key))
}

impl DeviceIdentity {
    /// Who a device is, from the values that lockdown gives.
    pub fn from_values(udid: &str, values: &plist::Dictionary) -> (identity: Self)
        ensures
            identity@ == identity_of(
                udid@,
                text_under(*values, "DeviceName"@),
                text_under(*values, "ProductType"@),
                text_under(*values, "ProductVersion"@),
                text_under(*values, "BuildVersion"@),
                text_under(*values, "SerialNumber"@),
                text_under(*values, "CPUArchitecture"@),
            ),
    {
        Self::from_texts(
            udid,
            property::as_text(property::property(values, "DeviceName")),
            property::as_text(property::property(values, "ProductType")),
            property::as_text(property::property(values, "ProductVersion")),
            property::as_text(property::property(values, "BuildVersion")),
            property::as_text(property::property(values, "SerialNumber")),
            property::as_text(property::property(values, "CPUArchitecture")),
        )
    }

    /// Who a device is, from what it says of itself.
    pub fn from_texts(
        udid: &str,
        name: Option<String>,
        product_type: Option<String>,
        version: Option<String>,
        build: Option<String>,
        serial: Option<String>,
        cpu: Option<String>,
    ) -> (identity: Self)
        ensures
            identity@ == identity_of(
                udid@,
                text::text_in(name),
                text::text_in(product_type),
                text::text_in(version),
                text::text_in(build),
                text::text_in(serial),
                text::text_in(cpu),
            ),
    {
        DeviceIdentity {
            name: filled(name, udid),
            product_type: filled(product_type, ""),
            version: filled(version, ""),
            build: filled(build, ""),
            serial: filled(serial, ""),
            cpu: filled(cpu, "arm64"),
        }
    }

    /// Whether this is a television.
    pub fn is_apple_tv(&self) -> (is: bool)
        ensures
            is == text::contains_text(self@.product_type, "AppleTV"@),
    {
        let chars = text::chars_of(&self.product_type);
        text::holds(&chars, "AppleTV")
    }
}

/// What a configured usbmuxd address names, before any name resolution.
#[derive(Debug)]
pub enum Configured {
    Unix(String),
    /// An address and a port.
    Tcp(String),
    /// A name and a port, which has to be resolved.
    Host(String),
}

/// What a configured usbmuxd address names, before any name resolution.
pub enum ConfiguredView {
    Unix(Seq<char>),
    Tcp(Seq<char>),
    Host(Seq<char>),
}

impl View for Configured {
    type V = ConfiguredView;

    open spec fn view(&self) -> ConfiguredView {
        match *self {
            Configured::Unix(path) => ConfiguredView::Unix(path@),
            Configured::Tcp(address) => ConfiguredView::Tcp(address@),
            Configured::Host(host) => ConfiguredView::Host(host@),
        }
    }
}

/// Whether a text names the scheme of a unix socket, in any case.
pub open spec fn is_unix_scheme(scheme: Seq<char>) -> bool {
    text::ascii_lowered(scheme) == "unix"@
}

/// What a configured usbmuxd address names: a unix socket by `unix:` in any
/// case, by a bare path or for want of a colon, and a host and port otherwise,
/// of which `literal` says whether they read as an address.
pub open spec fn configured_in(configured: Seq<char>, literal: bool) -> ConfiguredView {
    let trimmed = text::trim(configured);
    match text::split_once(trimmed, ':') {
        None => ConfiguredView::Unix(trimmed),
        Some((scheme, rest)) => if is_unix_scheme(scheme) {
            ConfiguredView::Unix(rest)
        } else if trimmed[0] == '/' {
            ConfiguredView::Unix(trimmed)
        } else if literal {
            ConfiguredView::Tcp(trimmed)
        } else {
            ConfiguredView::Host(trimmed)
        },
    }
}

/// What a configured usbmuxd address names.
///
/// The documented form of a unix socket is `UNIX:/path`, which contains a colon:
/// reading one as a host and port discards a perfectly good path. Whether the
/// trimmed text reads as an IP address and port is told by `literal`.
pub fn parse_usbmuxd_address(configured: &str, literal: bool) -> (parsed: Configured)
    ensures
        parsed@ == configured_in(configured@, literal),
{
    let chars = text::chars_of(configured);
    let trimmed = text::trimmed(&chars);
    match text::parted(trimmed, ':') {
        None => Configured::Unix(text::string_of(trimmed)),
        Some((scheme, rest)) => {
            proof {
                text::lemma_find(trimmed@, ':');
            }
            let scheme = text::lowered(scheme);
            if text::reads(&scheme, "unix") {
                Configured::Unix(text::string_of(rest))
            } else if trimmed[0] == '/' {
                Configured::Unix(text::string_of(trimmed))
            } else if literal {
                Configured::Tcp(text::string_of(trimmed))
            } else {
                Configured::Host(text::string_of(trimmed))
            }
        },
    }
}

/// One entry of usbmuxd's list: a device, and whether it is attached over USB.
#[derive(Debug)]
pub struct Attached {
    pub udid: String,
    pub usb: bool,
}

/// Whether an entry is of this device, and over USB or not.
pub open spec fn is_entry_of(entry: Attached, udid: Seq<char>, usb: bool) -> bool {
    entry.udid@ == udid && entry.usb == usb
}

/// Whether one of the entries is of this device, and over USB or not.
pub open spec fn is_listed(entries: Seq<Attached>, udid: Seq<char>, usb: bool) -> bool {
    exists|i: int| 0 <= i < entries.len() && #[trigger] is_entry_of(entries[i], udid, usb)
}

/// Why a device cannot be used as it is attached.
#[derive(Debug)]
pub struct AttachError {
    pub message: String,
}

/// Choose the USB entry for a udid, and refuse anything else.
///
/// A device that is synced over Wi-Fi is listed twice, in no guaranteed order.
/// The tunnel is built and tested over USB, so the last USB entry is taken, and
/// where there is none that is said plainly.
pub fn pick_usb(devices: &[Attached], udid: &str) -> (picked: Result<usize, AttachError>)
    ensures
        picked is Ok == is_listed(devices@, udid@, true),
        picked matches Ok(at) ==> {
            &&& at < devices@.len()
            &&& is_entry_of(devices@[at as int], udid@, true)
            &&& forall|i: int|
                at < i < devices@.len() ==> !#[trigger] is_entry_of(devices@[i], udid@, true)
        },
        picked matches Err(error) ==> error.message@ == (if is_listed(devices@, udid@, false) {
            udid@
                + " is attached over the network only, and this provider needs USB. Plug the device in, or turn off Wi-Fi sync for it."@
        } else {
            "usbmuxd has no device "@ + udid@
        }),
{
    let mut usb: Option<usize> = None;
    let mut network = false;
    let mut n: usize = 0;
    while n < devices.len()
        invariant
            n <= devices@.len(),
            network == (exists|i: int|
                0 <= i < n && #[trigger] is_entry_of(devices@[i], udid@, false)),
            match usb {
                Some(at) => {
                    &&& at < n
                    &&& is_entry_of(devices@[at as int], udid@, true)
                    &&& forall|i: int| at < i < n ==> !#[trigger] is_entry_of(
                        devices@[i],
                        udid@,
                        true,
                    )
                },
                None => forall|i: int| 0 <= i < n ==> !#[trigger] is_entry_of(
                    devices@[i],
                    udid@,
                    true,
                ),
            },
        decreases devices@.len() - n,
    {
        let entry = &devices[n];
        if text::same_text(&entry.udid, udid) {
            if entry.usb {
                assert(is_entry_of(devices@[n as int], udid@, true));
                usb = Some(n);
            } else {
                assert(is_entry_of(devices@[n as int], udid@, false));
                network = true;
            }
        }
        n += 1;
    }
    match usb {
        Some(at) => Ok(at),
        None => {
            let mut message = String::new();
            if network {
                message.append(udid);
                message.append(
                    " is attached over the network only, and this provider needs USB. Plug the device in, or turn off Wi-Fi sync for it.",
                );
                assert(message@ =~= udid@
                    + " is attached over the network only, and this provider needs USB. Plug the device in, or turn off Wi-Fi sync for it."@);
            } else {
                message.append("usbmuxd has no device ");
                message.append(udid);
                assert(message@ =~= "usbmuxd has no device "@ + udid@);
            }
            Err(AttachError { message })
        },
    }
}

/// The items of a list in an order.
pub open spec fn arranged(items: Seq<Seq<char>>, order: Seq<usize>) -> Seq<Seq<char>> {
    order.map_values(|i: usize| items[i as int])
}

/// What is said of a service that a device does not offer. Which services it
/// does depends on its state, not only its version, so they are named, in order.
pub fn missing_service(name: &str, offered: &[String]) -> (message: String)
    ensures
        exists|order: Seq<usize>| #[trigger]
            order::is_order(text::strings(offered@), order) && message@ == "the device does not offer "@
                + name@ + "; it offers "@ + text::join(
                arranged(text::strings(offered@), order),
                ", "@,
            ),
{
    let ghost names = text::strings(offered@);
    let mut keys: Vec<Vec<char>> = Vec::new();
    let mut n: usize = 0;
    while n < offered.len()
        invariant
            n <= offered@.len(),
            names == text::strings(offered@),
            text::texts(keys@) == names.take(n as int),
        decreases offered@.len() - n,
    {
        let chars = text::chars_of(&offered[n]);
        let ghost before = text::texts(keys@);
        keys.push(chars);
        n += 1;
        assert(text::texts(keys@) =~= before.push(names[n - 1]));
        assert(names.take(n as int) =~= before.push(names[n - 1]));
    }
    assert(names.take(names.len() as int) =~= names);
    let places = order::order_of(&keys);
    let mut sorted: Vec<Vec<char>> = Vec::new();
    let mut k: usize = 0;
    while k < places.len()
        invariant
            k <= places@.len(),
            names == text::strings(offered@),
            order::is_order(names, places@),
            text::texts(sorted@) == arranged(names, places@.take(k as int)),
        decreases places@.len() - k,
    {
        let at: usize = places[k];
        assert(places@[k as int] < names.len());
        let chars = text::chars_of(&offered[at]);
        let ghost before = text::texts(sorted@);
        sorted.push(chars);
        k += 1;
        assert(text::texts(sorted@) =~= before.push(names[at as int]));
        assert(arranged(names, places@.take(k as int)) =~= before.push(names[at as int]));
    }
    assert(places@.take(places@.len() as int) =~= places@);
    let list = text::joined(&sorted, ", ");
    let mut message = String::new();
    message.append("the device does not offer ");
    message.append(name);
    message.append("; it offers ");
    text::push_chars(&mut message, &list);
    assert(message@ =~= "the device does not offer "@ + name@ + "; it offers "@ + text::join(
        arranged(names, places@),
        ", "@,
    ));
    message
}

/// The version of a system from its first two numbers, of which the second may
/// be missing.
pub open spec fn version_in(product_version: Seq<char>) -> Option<(int, int)> {
    let parts = text::split(product_version, '.');
    let major = text::unsigned_in(parts[0], 10, u32::MAX as int);
    let minor = if parts.len() > 1 {
        text::unsigned_in(parts[1], 10, u32::MAX as int)
    } else {
        Some(0)
    };
    if major is Some && minor is Some {
        Some((major->0, minor->0))
    } else {
        None
    }
}

/// The first version on which the tunnel has held up in practice.
pub const FIRST_SUPPORTED: u64 = 27;

/// What is said of a version that is too old.
pub open spec fn unsupported(product_version: Seq<char>) -> Seq<char> {
    "iOS "@ + product_version
        + " is not supported: this provider needs 27+, where CoreDeviceProxy reliably builds the tunnel without root. There is no fallback path for older devices."@
}

/// Refuse a version that is too old, rather than half-work. One that cannot be
/// read is let through: refusing a version that is merely not recognised would
/// be worse.
pub fn assert_supported(product_version: &str) -> (supported: Result<(), String>)
    ensures
        supported is Err == (version_in(product_version@) matches Some((major, _)) && major
            < FIRST_SUPPORTED),
        supported matches Err(error) ==> error@ == unsupported(product_version@),
{
    let chars = text::chars_of(product_version);
    let parts = text::pieces_of(&chars, '.');
    let ghost pieces = text::split(product_version@, '.');
    assert(pieces.len() > 0);
    assert(parts@[0]@ == pieces[0]);
    let major = match text::parse_unsigned(&parts[0], 10, u32::MAX as u64) {
        Some(major) => major,
        None => {
            return Ok(());
        },
    };
    if parts.len() > 1 {
        assert(parts@[1]@ == pieces[1]);
        if text::parse_unsigned(&parts[1], 10, u32::MAX as u64).is_none() {
            return Ok(());
        }
    }
    if major >= FIRST_SUPPORTED {
        return Ok(());
    }
    let mut error = String::new();
    error.append("iOS ");
    error.append(product_version);
    error.append(
        " is not supported: this provider needs 27+, where CoreDeviceProxy reliably builds the tunnel without root. There is no fallback path for older devices.",
    );
    assert(error@ =~= unsupported(product_version@));
    Err(error)
}

/// Everything that a device says of itself goes to its own field: a text that is there
/// and not empty as it is, and one that is not, for its own field alone, as what stands
/// in for it.
pub proof fn law_each_answer_fills_its_own_field(
    udid: Seq<char>,
    name: Seq<char>,
    product_type: Seq<char>,
    version: Seq<char>,
    build: Seq<char>,
    serial: Seq<char>,
    cpu: Seq<char>,
    empty: Option<Seq<char>>,
)
    requires
        name.len() > 0 && product_type.len() > 0 && version.len() > 0,
        build.len() > 0 && serial.len() > 0 && cpu.len() > 0,
        empty is None || empty == Some(Seq::<char>::empty()),
    ensures
        ({
            let all = DeviceIdentityView { name, product_type, version, build, serial, cpu };
            let (n, p, v) = (Some(name), Some(product_type), Some(version));
            let (b, s, c) = (Some(build), Some(serial), Some(cpu));
            let e = empty;
            &&& identity_of(udid, n, p, v, b, s, c) == all
            &&& identity_of(udid, e, p, v, b, s, c) == (DeviceIdentityView { name: udid, ..all })
            &&& identity_of(udid, n, e, v, b, s, c) == (DeviceIdentityView {
                product_type: ""@,
                ..all
            })
            &&& identity_of(udid, n, p, e, b, s, c) == (DeviceIdentityView { version: ""@, ..all })
            &&& identity_of(udid, n, p, v, e, s, c) == (DeviceIdentityView { build: ""@, ..all })
            &&& identity_of(udid, n, p, v, b, e, c) == (DeviceIdentityView { serial: ""@, ..all })
            &&& identity_of(udid, n, p, v, b, s, e) == (DeviceIdentityView {
                cpu: "arm64"@,
                ..all
            })
        }),
{
}

/// A version is its first two numbers, whatever follows them; one without a second
/// reads as if that were zero. Twenty-seven is the first that is supported.
pub proof fn law_a_version_is_its_first_two_numbers(major: nat, minor: nat, rest: Seq<char>)
    requires
        major <= u32::MAX,
        minor <= u32::MAX,
        rest.len() == 0 || rest[0] == '.',
    ensures
        version_in(text::decimal(major)) == Some((major as int, 0int)),
        version_in(text::decimal(major) + seq!['.'] + text::decimal(minor) + rest) == Some(
            (major as int, minor as int),
        ),
        FIRST_SUPPORTED == 27,
{
    let (a, b) = (text::decimal(major), text::decimal(minor));
    text::law_decimal_reads_back(major);
    text::law_decimal_reads_back(minor);
    lemma_no_dot(major);
    lemma_no_dot(minor);
    text::lemma_found(a, '.', a.len() as int);
    assert(text::split(a, '.') =~= seq![a]);
    let whole = a + seq!['.'] + b + rest;
    text::lemma_found(whole, '.', a.len() as int);
    assert(whole.take(a.len() as int) =~= a);
    let tail = b + rest;
    assert(whole.skip((a.len() + 1) as int) =~= tail);
    text::lemma_found(tail, '.', b.len() as int);
    assert(tail.take(b.len() as int) =~= b);
    assert(text::split(whole, '.') =~= seq![a] + text::split(tail, '.'));
    assert(text::split(tail, '.')[0] == b) by {
        if rest.len() == 0 {
            assert(tail =~= b);
        }
    }
    assert(text::split(tail, '.').len() > 0);
}

proof fn lemma_no_dot(n: nat)
    ensures
        forall|i: int| 0 <= i < text::decimal(n).len() ==> #[trigger] text::decimal(n)[i] != '.',
    decreases n,
{
    if n >= 10 {
        lemma_no_dot(n / 10);
        let digits = text::decimal(n);
        assert forall|i: int| 0 <= i < digits.len() implies #[trigger] digits[i] != '.' by {
            if i < digits.len() - 1 {
                assert(digits[i] == text::decimal(n / 10)[i]);
            }
        }
    }
}

/// What a usbmuxd address names. A path is a path whatever colons it holds, with the
/// scheme in front of it in any case or without one, and only what is left is a host
/// and a port.
pub proof fn law_a_socket_path_is_never_a_host(configured: Seq<char>, literal: bool)
    requires
        configured.len() > 0,
        text::trim(configured) == configured,
        configured[0] == '/',
    ensures
        configured_in(configured, literal) == ConfiguredView::Unix(configured),
        configured_in("UNIX:"@ + configured, literal) == ConfiguredView::Unix(configured),
        configured_in("unix:"@ + configured, literal) == ConfiguredView::Unix(configured),
{
    reveal_strlit("UNIX:");
    reveal_strlit("unix:");
    reveal_strlit("unix");
    text::lemma_find(configured, ':');
    let at = text::find(configured, ':');
    if at < configured.len() {
        let scheme = configured.take(at);
        if is_unix_scheme(scheme) {
            assert(text::ascii_lowered(scheme).len() == scheme.len());
            assert(scheme[0] == '/');
            assert(text::ascii_lowered(scheme)[0] == text::ascii_lower('/'));
            assert("unix"@[0] == 'u');
        }
    }
    lemma_unix_prefix("UNIX:"@, configured, literal);
    lemma_unix_prefix("unix:"@, configured, literal);
}

proof fn lemma_unix_prefix(prefix: Seq<char>, path: Seq<char>, literal: bool)
    requires
        path.len() > 0,
        text::trim(path) == path,
        prefix.len() == 5,
        prefix[4] == ':',
        forall|i: int|
            0 <= i < 4 ==> #[trigger] prefix[i] != ':' && !text::is_white(prefix[i])
                && text::ascii_lower(prefix[i]) == "unix"@[i],
        "unix"@.len() == 4,
    ensures
        configured_in(prefix + path, literal) == ConfiguredView::Unix(path),
{
    let whole = prefix + path;
    assert(whole[0] == prefix[0]);
    assert(text::trim_start(whole) == whole);
    lemma_trimmed_end(path);
    assert(whole.last() == path.last());
    assert(text::trim(whole) == whole);
    text::lemma_found(whole, ':', 4);
    assert(whole.take(4) =~= prefix.take(4));
    assert(text::ascii_lowered(whole.take(4)) =~= "unix"@);
    assert(whole.skip(5) =~= path);
}

proof fn lemma_trimmed_end(s: Seq<char>)
    requires
        s.len() > 0,
        text::trim(s) == s,
    ensures
        !text::is_white(s.last()),
{
    if text::is_white(s.last()) {
        text::lemma_trim_last(s);
        lemma_trim_shrinks(s.drop_last());
    }
}

proof fn lemma_trim_shrinks(s: Seq<char>)
    ensures
        text::trim(s).len() <= s.len(),
{
    text::lemma_trim_start(s);
    lemma_trim_end_shrinks(text::trim_start(s));
}

proof fn lemma_trim_end_shrinks(s: Seq<char>)
    ensures
        text::trim_end(s).len() <= s.len(),
    decreases s.len(),
{
    if s.len() > 0 && text::is_white(s.last()) {
        lemma_trim_end_shrinks(s.drop_last());
    }
}

} // verus!
