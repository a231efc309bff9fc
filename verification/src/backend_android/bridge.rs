//! What the ADB bridge needs to know of a real device: which keys may drive it,
//! and what it answers a client with.

use crate::adb_bridge::auth;
use crate::adb_bridge::key;
use crate::adb_bridge::key::PublicKey;
use crate::text;
use vstd::prelude::*;
use vstd::string::*;

verus! {

/// A key that the coordinator vouches for, and whose it is.
#[derive(Debug)]
pub struct EntitledKey {
    pub public_key: String,
    pub user_id: String,
}

/// The keys among these that can be parsed, each with its owner.
pub open spec fn keys_of(offered: Seq<EntitledKey>) -> Seq<key::PublicKeyView>
    decreases offered.len(),
{
    if offered.len() == 0 {
        Seq::empty()
    } else {
        let before = keys_of(offered.drop_last());
        match key::key_in(offered.last().public_key@) {
            Ok(parsed) => before.push(
                key::PublicKeyView { owner: Some(offered.last().user_id@), ..parsed },
            ),
            Err(_) => before,
        }
    }
}

/// The keys that may drive a device without anyone being asked.
///
/// A key the coordinator accepted that cannot be parsed is a bug on one side or
/// the other; dropping one key beats refusing every connection to this device.
pub fn entitled(offered: Vec<EntitledKey>) -> (keys: Vec<PublicKey>)
    ensures
        auth::key_views(keys@) == keys_of(offered@),
{
    let mut keys: Vec<PublicKey> = Vec::new();
    assert(offered@.take(0) =~= Seq::<EntitledKey>::empty());
    assert(auth::key_views(keys@) =~= Seq::<key::PublicKeyView>::empty());
    for offer in it: offered
        invariant
            it.seq() == offered@,
            auth::key_views(keys@) == keys_of(offered@.take(it.index() as int)),
    {
        let ghost more = offered@.take(it.index() + 1);
        let ghost before = keys@;
        assert(more.drop_last() =~= offered@.take(it.index() as int));
        assert(more.last() == offer);
        match PublicKey::parse(offer.public_key.as_str()) {
            Ok(parsed) => {
                let owned = parsed.with_owner(offer.user_id);
                let ghost one = owned@;
                keys.push(owned);
                assert(auth::key_views(keys@) =~= auth::key_views(before).push(one));
            },
            Err(_) => {},
        }
    }
    assert(offered@.take(offered@.len() as int) =~= offered@);
    keys
}

/// A line of a property dump, without white space at its ends; empty where there
/// is no such line.
pub open spec fn line_or_empty(lines: Seq<Seq<char>>, i: int) -> Seq<char> {
    if i < lines.len() {
        text::trim(lines[i])
    } else {
        Seq::empty()
    }
}

/// What a real `adbd` would have answered `CNXN` with.
pub open spec fn banner_text(features: Option<Seq<char>>, properties: Seq<char>) -> Seq<char> {
    let lines = text::lines(properties);
    "device::ro.product.name="@ + line_or_empty(lines, 0) + ";ro.product.model="@ + line_or_empty(
        lines,
        1,
    ) + ";ro.product.device="@ + line_or_empty(lines, 2) + ";features="@ + match features {
        Some(features) => features,
        None => "shell_v2,cmd,stat_v2"@,
    }
}

fn push_line(out: &mut String, lines: &Vec<Vec<char>>, i: usize)
    ensures
        final(out)@ == old(out)@ + line_or_empty(text::texts(lines@), i as int),
{
    assert(text::texts(lines@).len() == lines@.len());
    if i < lines.len() {
        assert(text::texts(lines@)[i as int] == lines@[i as int]@);
        text::push_chars(out, text::trimmed(&lines[i]));
    } else {
        assert(out@ =~= old(out)@ + Seq::<char>::empty());
    }
}

/// What a real `adbd` would have answered `CNXN` with: the device's name, model
/// and kind from three lines of properties, and its features.
///
/// The feature list is the part that matters: it is how a client learns it may
/// use `shell,v2:` and `cmd:`. Where there is none, it gets what every `adbd`
/// since Android 7 has: a short list costs a client conveniences, a wrong one
/// makes it speak a protocol the device does not.
pub fn build_banner(features: Option<String>, properties: &str) -> (banner: String)
    ensures
        banner@ == banner_text(text::text_in(features), properties@),
{
    let chars = text::chars_of(properties);
    let lines = text::lines_of(&chars);
    let mut out = String::new();
    out.append("device::ro.product.name=");
    push_line(&mut out, &lines, 0);
    out.append(";ro.product.model=");
    push_line(&mut out, &lines, 1);
    out.append(";ro.product.device=");
    push_line(&mut out, &lines, 2);
    out.append(";features=");
    match &features {
        Some(features) => {
            out.append(features.as_str());
        },
        None => {
            out.append("shell_v2,cmd,stat_v2");
        },
    }
    assert(out@ =~= banner_text(text::text_in(features), properties@));
    out
}

/// The service that asks the adb server for a device's features.
pub fn features_service(serial: &str) -> (service: String)
    ensures
        service@ == "host-serial:"@ + serial@ + ":features"@,
{
    let mut out = String::new();
    out.append("host-serial:");
    out.append(serial);
    out.append(":features");
    assert(out@ =~= "host-serial:"@ + serial@ + ":features"@);
    out
}

/// The search for a port to listen on.
///
/// The ports that could not be bound are held until the search is over, so that
/// none of them is handed out and tried again meanwhile.
#[derive(Debug)]
pub struct PortSearch {
    pub held: Vec<u16>,
}

/// What a search does next.
#[derive(Debug, Clone, Copy, PartialEq, Eq, Structural)]
pub enum SearchStep {
    /// Try to listen on this port.
    Bind(u16),
    /// There is none left.
    Exhausted,
}

/// What is said where there is no port left.
pub fn no_port_left() -> (message: &'static str)
    ensures
        message@ == "every remote-debugging port is in use; widen remote_debug.ports"@,
{
    "every remote-debugging port is in use; widen remote_debug.ports"
}

impl PortSearch {
    /// A search that holds nothing yet.
    pub fn new() -> (search: Self)
        ensures
            search.held@ == Seq::<u16>::empty(),
    {
        PortSearch { held: Vec::new() }
    }

    /// Take what the pool handed out. An exhausted pool ends the search: a
    /// random port is no answer.
    pub fn on_claim(&self, claimed: Option<u16>) -> (step: SearchStep)
        ensures
            step == match claimed {
                Some(port) => SearchStep::Bind(port),
                None => SearchStep::Exhausted,
            },
    {
        match claimed {
            Some(port) => SearchStep::Bind(port),
            None => SearchStep::Exhausted,
        }
    }

    /// Hold a port that could not be bound.
    pub fn on_refused(&mut self, port: u16)
        ensures
            final(self).held@ == old(self).held@.push(port),
    {
        self.held.push(port);
    }
}

/// Every key that can be parsed gets in as its own owner's, in the order of the list,
/// and one that cannot costs nobody else anything.
pub proof fn law_each_key_keeps_its_owner(offered: Seq<EntitledKey>, one: EntitledKey)
    ensures
        match key::key_in(one.public_key@) {
            Ok(parsed) => keys_of(offered.push(one)) == keys_of(offered).push(
                key::PublicKeyView { owner: Some(one.user_id@), ..parsed },
            ),
            Err(_) => keys_of(offered.push(one)) == keys_of(offered),
        },
        keys_of(Seq::empty()) == Seq::<key::PublicKeyView>::empty(),
{
    assert(offered.push(one).drop_last() =~= offered);
}

/// A banner has the product, the model and the device in the order in which they were
/// asked for, each under its own name, and the features behind them.
pub proof fn law_a_banner_names_the_device(
    product: Seq<char>,
    model: Seq<char>,
    device: Seq<char>,
    features: Seq<char>,
)
    requires
        is_one_line(product),
        is_one_line(model),
        is_one_line(device),
    ensures
        banner_text(
            Some(features),
            product + seq!['\n'] + (model + seq!['\n'] + device),
        ) == "device::ro.product.name="@ + product + ";ro.product.model="@ + model
            + ";ro.product.device="@ + device + ";features="@ + features,
{
    let none = Seq::<char>::empty();
    text::law_lines_are_parted_by_newlines(device, none);
    text::law_lines_are_parted_by_newlines(model, device);
    text::law_lines_are_parted_by_newlines(product, model + seq!['\n'] + device);
    let lines = text::lines(product + seq!['\n'] + (model + seq!['\n'] + device));
    assert(lines[0] == product && lines[1] == model);
    assert(device.len() > 0 ==> lines =~= seq![product, model, device]);
    assert(device.len() == 0 ==> lines =~= seq![product, model] && device =~= none);
    assert(text::trim(product) == product && text::trim(model) == model);
    assert(text::trim(device) == device);
    assert(line_or_empty(lines, 2) == device);
}

/// Whether a text is one line, without white space at its ends.
pub open spec fn is_one_line(s: Seq<char>) -> bool {
    !s.contains('\n') && (s.len() == 0 || !text::is_white(s[0]) && !text::is_white(s.last()))
}

} // verus!
