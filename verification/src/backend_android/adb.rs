//! The adb server's host protocol, and the sync subprotocol for files.
//!
//! The host protocol prefixes payloads with a 4-digit hex length. The sync
//! subprotocol, used after `sync:`, prefixes with a 4-byte little-endian length.
//! Mixing them up produces a hang rather than an error, because each side sits
//! waiting for bytes the other will never send.

use crate::table;
use crate::table::Table;
use crate::text;
use crate::wire;
use vstd::prelude::*;
use vstd::string::*;

verus! {

/// Sync-protocol chunks are capped by adb itself; a larger DATA is rejected.
pub const SYNC_CHUNK: usize = 64 * 1024;

/// The four letters that sync-protocol frames start with, as little-endian
/// numbers.
pub const ID_OKAY: u32 = 0x5941_4b4f;

pub const ID_FAIL: u32 = 0x4c49_4146;

pub const ID_SEND: u32 = 0x444e_4553;

pub const ID_LIST: u32 = 0x5453_494c;

pub const ID_RECV: u32 = 0x5643_4552;

pub const ID_DATA: u32 = 0x4154_4144;

pub const ID_DENT: u32 = 0x544e_4544;

pub const ID_DONE: u32 = 0x454e_4f44;

/// One `DENT` record from the sync protocol's `LIST`.
///
/// `mode` is a POSIX `st_mode`, which is what makes a directory tellable from a
/// file without a second round-trip per entry.
#[derive(Debug, Clone, PartialEq, Eq)]
pub struct SyncDirEntry {
    pub name: String,
    pub mode: u32,
    pub size: u32,
    /// Seconds since the epoch. Zero on a filesystem that does not track it.
    pub mtime: u32,
}

/// What a directory entry says.
#[verifier::ext_equal]
pub struct SyncDirEntryView {
    pub name: Seq<char>,
    pub mode: u32,
    pub size: u32,
    pub mtime: u32,
}

impl View for SyncDirEntry {
    type V = SyncDirEntryView;

    open spec fn view(&self) -> SyncDirEntryView {
        SyncDirEntryView {
            name: self.name@,
            mode: self.mode,
            size: self.size,
            mtime: self.mtime,
        }
    }
}

/// The entries in a vector.
pub open spec fn entry_views(entries: Seq<SyncDirEntry>) -> Seq<SyncDirEntryView> {
    entries.map_values(|entry: SyncDirEntry| entry@)
}

/// `S_IFMT`: the bits of `st_mode` that say what kind of thing this is.
pub const S_IFMT: u32 = 0o170000;

pub const S_IFDIR: u32 = 0o040000;

pub const S_IFREG: u32 = 0o100000;

impl SyncDirEntry {
    pub fn is_dir(&self) -> (dir: bool)
        ensures
            dir == (self.mode & S_IFMT == S_IFDIR),
    {
        self.mode & S_IFMT == S_IFDIR
    }

    pub fn is_file(&self) -> (file: bool)
        ensures
            file == (self.mode & S_IFMT == S_IFREG),
    {
        self.mode & S_IFMT == S_IFREG
    }
}

/// Nothing is a directory and a file at once.
pub proof fn law_an_entry_is_one_kind_of_thing(mode: u32)
    ensures
        !(mode & S_IFMT == S_IFDIR && mode & S_IFMT == S_IFREG),
{
}

/// A device that the adb server knows.
#[derive(Debug, Clone, PartialEq, Eq)]
pub struct AdbDevice {
    pub serial: String,
    /// `device`, `offline`, `unauthorized`, `bootloader`, …
    pub state: String,
    pub model: Option<String>,
}

/// What the adb server says of a device.
#[verifier::ext_equal]
pub struct AdbDeviceView {
    pub serial: Seq<char>,
    pub state: Seq<char>,
    pub model: Option<Seq<char>>,
}

impl View for AdbDevice {
    type V = AdbDeviceView;

    open spec fn view(&self) -> AdbDeviceView {
        AdbDeviceView {
            serial: self.serial@,
            state: self.state@,
            model: text::text_in(self.model),
        }
    }
}

/// The devices in a vector.
pub open spec fn device_views(devices: Seq<AdbDevice>) -> Seq<AdbDeviceView> {
    devices.map_values(|device: AdbDevice| device@)
}

impl AdbDeviceView {
    /// Only `device` means usable.
    pub open spec fn usable(self) -> bool {
        self.state == "device"@
    }
}

impl AdbDevice {
    /// Only `device` means usable. `unauthorized` in particular looks connected
    /// and answers nothing; surfacing it as present would mean handing a user a
    /// device that silently refuses every command.
    pub fn is_usable(&self) -> (usable: bool)
        ensures
            usable == self@.usable(),
    {
        text::same_text(self.state.as_str(), "device")
    }
}

/// Whether a device is among those that can be used.
pub fn is_back(devices: &[AdbDevice], serial: &str) -> (back: bool)
    ensures
        back == exists|i: int|
            0 <= i < devices@.len() && (#[trigger] devices@[i])@.serial == serial@
                && devices@[i]@.usable(),
{
    let mut i: usize = 0;
    while i < devices.len()
        invariant
            i <= devices.len(),
            forall|k: int|
                0 <= k < i ==> !((#[trigger] devices@[k])@.serial == serial@
                    && devices@[k]@.usable()),
        decreases devices.len() - i,
    {
        if text::same_text(devices[i].serial.as_str(), serial) && devices[i].is_usable() {
            return true;
        }
        i += 1;
    }
    false
}

/// The adb server, addressed by host:port.
#[derive(Debug, Clone)]
pub struct Adb {
    server: String,
}

impl View for Adb {
    type V = Seq<char>;

    closed spec fn view(&self) -> Seq<char> {
        self.server@
    }
}

impl Adb {
    pub fn new(server: String) -> (adb: Self)
        ensures
            adb@ == server@,
    {
        Adb { server }
    }

    pub fn server(&self) -> (server: &str)
        ensures
            server@ == self@,
    {
        self.server.as_str()
    }
}

/// A host-protocol request: the service behind the number of its bytes, as hex.
pub open spec fn request_text(service: Seq<char>) -> Seq<char> {
    text::hex(vstd::utf8::encode_utf8(service).len(), 4, false) + service
}

/// Frame one host-protocol request.
pub fn request(service: &str) -> (framed: String)
    ensures
        framed@ == request_text(service@),
{
    let bytes = text::utf8_of(service);
    let mut out = String::new();
    text::push_hex(&mut out, bytes.len() as u64, 4, false);
    out.append(service);
    assert(out@ =~= request_text(service@));
    out
}

/// The answer to a request.
#[derive(Debug, Clone, Copy, PartialEq, Eq, Structural)]
pub enum Status {
    Okay,
    /// A message follows.
    Fail,
    /// Not a status word.
    Unknown,
}

/// Read a status word.
pub fn status(word: &[u8]) -> (status: Status)
    requires
        word@.len() == 4,
    ensures
        status == if wire::le32_at(word@, 0) == ID_OKAY {
            Status::Okay
        } else if wire::le32_at(word@, 0) == ID_FAIL {
            Status::Fail
        } else {
            Status::Unknown
        },
{
    let id: u32 = wire::read_le32(word, 0);
    if id == ID_OKAY {
        Status::Okay
    } else if id == ID_FAIL {
        Status::Fail
    } else {
        Status::Unknown
    }
}

/// The length that a hex prefix gives.
pub open spec fn length_in(header: Seq<u8>) -> Option<int> {
    if vstd::utf8::valid_utf8(header) {
        text::unsigned_in(vstd::utf8::decode_utf8(header), 16, usize::MAX as int)
    } else {
        None
    }
}

/// Read the hex length in front of a payload. Nothing where it is no hex number.
pub fn payload_length(header: &[u8]) -> (length: Option<usize>)
    ensures
        match length {
            Some(length) => length_in(header@) == Some(length as int),
            None => length_in(header@) is None,
        },
{
    match text::strict_text(vstd::slice::slice_to_vec(header)) {
        Some(digits) => {
            match text::parse_unsigned(&text::chars_of(digits.as_str()), 16, usize::MAX as u64) {
                Some(n) => Some(n as usize),
                None => None,
            }
        },
        None => None,
    }
}

/// The version that the adb server answers: a hex number.
pub fn parse_version(payload: &str) -> (version: Option<u32>)
    ensures
        match version {
            Some(version) => text::unsigned_in(text::trim(payload@), 16, u32::MAX as int) == Some(
                version as int,
            ),
            None => text::unsigned_in(text::trim(payload@), 16, u32::MAX as int) is None,
        },
{
    let chars = text::chars_of(payload);
    match text::parse_unsigned(text::trimmed(&chars), 16, u32::MAX as u64) {
        Some(n) => Some(n as u32),
        None => None,
    }
}

/// A service that takes an argument.
fn service_of(name: &str, argument: &str) -> (service: String)
    ensures
        service@ == name@ + argument@,
{
    let mut out = String::new();
    out.append(name);
    out.append(argument);
    assert(out@ =~= name@ + argument@);
    out
}

/// The service that switches a connection to one device's transport.
pub fn transport_service(serial: &str) -> (service: String)
    ensures
        service@ == "host:transport:"@ + serial@,
{
    service_of("host:transport:", serial)
}

/// The service that runs a shell command. The plain one: nothing here needs
/// stdout, stderr and the exit code separated.
pub fn shell_service(command: &str) -> (service: String)
    ensures
        service@ == "shell:"@ + command@,
{
    service_of("shell:", command)
}

/// The service that makes the device's own `adbd` listen on TCP.
pub fn tcpip_service(port: u16) -> (service: String)
    ensures
        service@ == "tcpip:"@ + text::decimal(port as nat),
{
    let mut out = String::new();
    out.append("tcpip:");
    text::push_decimal(&mut out, port as u64);
    assert(out@ =~= "tcpip:"@ + text::decimal(port as nat));
    out
}

/// The service that opens a TCP port of the device.
pub fn tcp_service(port: u16) -> (service: String)
    ensures
        service@ == "tcp:"@ + text::decimal(port as nat),
{
    let mut out = String::new();
    out.append("tcp:");
    text::push_decimal(&mut out, port as u64);
    assert(out@ =~= "tcp:"@ + text::decimal(port as nat));
    out
}

/// The service that makes the device listen on `remote` and forward to `local`.
pub fn reverse_service(remote: &str, local: &str) -> (service: String)
    ensures
        service@ == "reverse:forward:"@ + remote@ + ";"@ + local@,
{
    let mut out = String::new();
    out.append("reverse:forward:");
    out.append(remote);
    out.append(";");
    out.append(local);
    assert(out@ =~= "reverse:forward:"@ + remote@ + ";"@ + local@);
    out
}

/// The service that undoes a reverse forward.
pub fn reverse_remove_service(remote: &str) -> (service: String)
    ensures
        service@ == "reverse:killforward:"@ + remote@,
{
    service_of("reverse:killforward:", remote)
}

/// A sync-protocol frame: its id, a length and the bytes.
pub open spec fn frame(id: u32, bytes: Seq<u8>) -> Seq<u8> {
    wire::le32(id) + wire::le32((bytes.len() % 0x1_0000_0000) as u32) + bytes
}

fn push_frame(out: &mut Vec<u8>, id: u32, bytes: &[u8])
    ensures
        final(out)@ == old(out)@ + frame(id, bytes@),
{
    wire::push_le32(out, id);
    wire::push_le32(out, (bytes.len() as u64 % 0x1_0000_0000) as u32);
    wire::append(out, bytes);
    assert(out@ =~= old(out)@ + frame(id, bytes@));
}

/// Data in frames of at most a chunk each, all of them full but the last.
pub open spec fn data_frames(data: Seq<u8>) -> Seq<u8>
    decreases data.len(),
{
    if data.len() == 0 {
        Seq::empty()
    } else if data.len() <= SYNC_CHUNK {
        frame(ID_DATA, data)
    } else {
        frame(ID_DATA, data.take(SYNC_CHUNK as int)) + data_frames(data.skip(SYNC_CHUNK as int))
    }
}

/// A push: where the file goes and its mode, the data, and its time.
pub open spec fn push_bytes(remote_path: Seq<char>, data: Seq<u8>, mode: u32, mtime: u32) -> Seq<
    u8,
> {
    frame(
        ID_SEND,
        vstd::utf8::encode_utf8(remote_path + ","@ + text::decimal(mode as nat)),
    ) + data_frames(data) + wire::le32(ID_DONE) + wire::le32(mtime)
}

/// Everything that a push sends after `sync:`.
pub fn push(remote_path: &str, data: &[u8], mode: u32, mtime: u32) -> (out: Vec<u8>)
    ensures
        out@ == push_bytes(remote_path@, data@, mode, mtime),
{
    let mut target = String::new();
    target.append(remote_path);
    target.append(",");
    text::push_decimal(&mut target, mode as u64);
    assert(target@ =~= remote_path@ + ","@ + text::decimal(mode as nat));
    let mut out: Vec<u8> = Vec::new();
    push_frame(&mut out, ID_SEND, &text::utf8_of(target.as_str()));
    let ghost sent = out@;
    let mut at: usize = 0;
    assert(data@.skip(0) =~= data@);
    while data.len() - at > 0
        invariant
            at <= data.len(),
            out@ + data_frames(data@.skip(at as int)) == sent + data_frames(data@),
        decreases data.len() - at,
    {
        let ghost rest = data@.skip(at as int);
        let ghost before = out@;
        let end: usize = if data.len() - at <= SYNC_CHUNK {
            data.len()
        } else {
            at + SYNC_CHUNK
        };
        push_frame(&mut out, ID_DATA, &data[at..end]);
        proof {
            let chunk = data@.subrange(at as int, end as int);
            if rest.len() <= SYNC_CHUNK {
                assert(chunk =~= rest);
                assert(data@.skip(end as int) =~= Seq::<u8>::empty());
                assert(out@ + Seq::<u8>::empty() =~= before + data_frames(rest));
            } else {
                assert(chunk =~= rest.take(SYNC_CHUNK as int));
                assert(data@.skip(end as int) =~= rest.skip(SYNC_CHUNK as int));
                assert(out@ + data_frames(data@.skip(end as int)) =~= before + data_frames(rest));
            }
        }
        at = end;
    }
    assert(data@.skip(at as int) =~= Seq::<u8>::empty());
    assert(out@ =~= sent + data_frames(data@));
    wire::push_le32(&mut out, ID_DONE);
    wire::push_le32(&mut out, mtime);
    assert(out@ =~= push_bytes(remote_path@, data@, mode, mtime));
    out
}

/// What a device answers to a push: eight bytes, and a message of the given
/// length where it failed.
#[derive(Debug, Clone, Copy, PartialEq, Eq, Structural)]
pub enum PushReply {
    Okay,
    Fail { length: u32 },
    Unexpected,
}

/// Read what a device answers to a push.
pub fn push_reply(reply: &[u8]) -> (answer: PushReply)
    requires
        reply@.len() == 8,
    ensures
        answer == if wire::le32_at(reply@, 0) == ID_OKAY {
            PushReply::Okay
        } else if wire::le32_at(reply@, 0) == ID_FAIL {
            PushReply::Fail { length: wire::le32_at(reply@, 4) as u32 }
        } else {
            PushReply::Unexpected
        },
{
    let id: u32 = wire::read_le32(reply, 0);
    if id == ID_OKAY {
        PushReply::Okay
    } else if id == ID_FAIL {
        PushReply::Fail { length: wire::read_le32(reply, 4) }
    } else {
        PushReply::Unexpected
    }
}

/// What a listing asks for after `sync:`.
pub fn list_request(path: &str) -> (out: Vec<u8>)
    ensures
        out@ == frame(ID_LIST, vstd::utf8::encode_utf8(path@)),
{
    let mut out: Vec<u8> = Vec::new();
    push_frame(&mut out, ID_LIST, &text::utf8_of(path));
    assert(out@ =~= frame(ID_LIST, vstd::utf8::encode_utf8(path@)));
    out
}

/// What a pull asks for after `sync:`.
pub fn pull_request(path: &str) -> (out: Vec<u8>)
    ensures
        out@ == frame(ID_RECV, vstd::utf8::encode_utf8(path@)),
{
    let mut out: Vec<u8> = Vec::new();
    push_frame(&mut out, ID_RECV, &text::utf8_of(path));
    assert(out@ =~= frame(ID_RECV, vstd::utf8::encode_utf8(path@)));
    out
}

/// The first record of a listing's reply.
pub enum RecordView {
    /// It is not all there yet.
    Partial,
    Entry { entry: SyncDirEntryView, used: int },
    Done { used: int },
    Failed { message: Seq<char>, used: int },
    Unexpected { id: u32 },
}

/// The first record of a listing's reply. `DONE` carries a 16-byte empty stat
/// block; `FAIL` carries the device's own words.
pub open spec fn record_in(input: Seq<u8>) -> RecordView {
    if input.len() < 4 {
        RecordView::Partial
    } else {
        let id = wire::le32_at(input, 0) as u32;
        if id == ID_DENT {
            if input.len() < 20 || input.len() < 20 + wire::le32_at(input, 16) {
                RecordView::Partial
            } else {
                let used = 20 + wire::le32_at(input, 16);
                RecordView::Entry {
                    entry: SyncDirEntryView {
                        name: text::utf8_lossy(input.subrange(20, used)),
                        mode: wire::le32_at(input, 4) as u32,
                        size: wire::le32_at(input, 8) as u32,
                        mtime: wire::le32_at(input, 12) as u32,
                    },
                    used,
                }
            }
        } else if id == ID_DONE {
            if input.len() < 20 {
                RecordView::Partial
            } else {
                RecordView::Done { used: 20 }
            }
        } else if id == ID_FAIL {
            if input.len() < 8 || input.len() < 8 + wire::le32_at(input, 4) {
                RecordView::Partial
            } else {
                let used = 8 + wire::le32_at(input, 4);
                RecordView::Failed {
                    message: text::trim(text::utf8_lossy(input.subrange(8, used))),
                    used,
                }
            }
        } else {
            RecordView::Unexpected { id }
        }
    }
}

/// The first record of a listing's reply.
pub enum Record {
    Partial,
    Entry { entry: SyncDirEntry, used: usize },
    Done { used: usize },
    Failed { message: String, used: usize },
    Unexpected { id: u32 },
}

impl View for Record {
    type V = RecordView;

    open spec fn view(&self) -> RecordView {
        match *self {
            Record::Partial => RecordView::Partial,
            Record::Entry { entry, used } => RecordView::Entry { entry: entry@, used: used as int },
            Record::Done { used } => RecordView::Done { used: used as int },
            Record::Failed { message, used } => RecordView::Failed {
                message: message@,
                used: used as int,
            },
            Record::Unexpected { id } => RecordView::Unexpected { id },
        }
    }
}

/// The device's own words in a failure.
pub fn fail_message(bytes: &[u8]) -> (message: String)
    ensures
        message@ == text::trim(text::utf8_lossy(bytes@)),
{
    let lossy = text::lossy_text(bytes);
    let chars = text::chars_of(lossy.as_str());
    text::string_of(text::trimmed(&chars))
}

fn read_record(input: &[u8]) -> (record: Record)
    ensures
        record@ == record_in(input@),
{
    if input.len() < 4 {
        return Record::Partial;
    }
    let id: u32 = wire::read_le32(input, 0);
    if id == ID_DENT {
        if input.len() < 20 {
            return Record::Partial;
        }
        let length: u64 = wire::read_le32(input, 16) as u64;
        if ((input.len() - 20) as u64) < length {
            return Record::Partial;
        }
        let used: usize = 20 + length as usize;
        let entry = SyncDirEntry {
            name: text::lossy_text(&input[20..used]),
            mode: wire::read_le32(input, 4),
            size: wire::read_le32(input, 8),
            mtime: wire::read_le32(input, 12),
        };
        Record::Entry { entry, used }
    } else if id == ID_DONE {
        if input.len() < 20 {
            Record::Partial
        } else {
            Record::Done { used: 20 }
        }
    } else if id == ID_FAIL {
        if input.len() < 8 {
            return Record::Partial;
        }
        let length: u64 = wire::read_le32(input, 4) as u64;
        if ((input.len() - 8) as u64) < length {
            return Record::Partial;
        }
        let used: usize = 8 + length as usize;
        Record::Failed { message: fail_message(&input[8..used]), used }
    } else {
        Record::Unexpected { id }
    }
}

/// How a listing stands.
#[derive(Debug, PartialEq, Eq)]
pub enum Listing {
    /// More is to come.
    More,
    /// Every entry is there.
    Done,
    /// The device refused, in these words. An unreadable directory answers this
    /// rather than an empty list.
    Failed(String),
    Unexpected(u32),
}

/// How a listing stands.
pub enum ListingView {
    More,
    Done,
    Failed(Seq<char>),
    Unexpected(u32),
}

impl View for Listing {
    type V = ListingView;

    open spec fn view(&self) -> ListingView {
        match *self {
            Listing::More => ListingView::More,
            Listing::Done => ListingView::Done,
            Listing::Failed(message) => ListingView::Failed(message@),
            Listing::Unexpected(id) => ListingView::Unexpected(id),
        }
    }
}

/// Whether an entry is the directory itself or its parent, which are the
/// caller's business and not the listing's.
pub open spec fn is_dot(name: Seq<char>) -> bool {
    name == "."@ || name == ".."@
}

/// The entries, what is left of the input, and how the listing stands, after the
/// records in `input`.
pub open spec fn listed(entries: Seq<SyncDirEntryView>, input: Seq<u8>) -> (
    Seq<SyncDirEntryView>,
    Seq<u8>,
    ListingView,
)
    decreases input.len(),
{
    match record_in(input) {
        RecordView::Partial => (entries, input, ListingView::More),
        RecordView::Entry { entry, used } => listed(
            if is_dot(entry.name) {
                entries
            } else {
                entries.push(entry)
            },
            input.skip(used),
        ),
        RecordView::Done { used } => (entries, input.skip(used), ListingView::Done),
        RecordView::Failed { message, used } => (
            entries,
            input.skip(used),
            ListingView::Failed(message),
        ),
        RecordView::Unexpected { id } => (entries, input, ListingView::Unexpected(id)),
    }
}

/// Reads the reply to a listing as it arrives.
pub struct ListReader {
    pending: Vec<u8>,
    entries: Vec<SyncDirEntry>,
}

impl ListReader {
    /// What has arrived and was not a whole record yet.
    pub closed spec fn pending(self) -> Seq<u8> {
        self.pending@
    }

    /// The entries so far.
    pub closed spec fn listed(self) -> Seq<SyncDirEntryView> {
        entry_views(self.entries@)
    }

    pub fn new() -> (reader: Self)
        ensures
            reader.pending() == Seq::<u8>::empty(),
            reader.listed() == Seq::<SyncDirEntryView>::empty(),
    {
        let reader = ListReader { pending: Vec::new(), entries: Vec::new() };
        assert(reader.listed() =~= Seq::<SyncDirEntryView>::empty());
        reader
    }

    /// Take what arrived, and say how the listing stands.
    pub fn feed(&mut self, input: &[u8]) -> (listing: Listing)
        ensures
            ({
                let (entries, rest, standing) = listed(
                    old(self).listed(),
                    old(self).pending() + input@,
                );
                &&& final(self).listed() == entries
                &&& final(self).pending() == rest
                &&& listing@ == standing
            }),
    {
        wire::append(&mut self.pending, input);
        let ghost all = self.pending@;
        let ghost goal = listed(self.listed(), all);
        let mut at: usize = 0;
        let mut standing = Listing::More;
        let mut going = true;
        assert(all.skip(0) =~= all);
        while going
            invariant
                at <= self.pending@.len(),
                self.pending@ == all,
                going ==> standing is More,
                going ==> listed(self.listed(), all.skip(at as int)) == goal,
                !going ==> goal == (self.listed(), all.skip(at as int), standing@),
            decreases all.len() - at + (if going { 1int } else { 0 }),
        {
            let ghost rest = all.skip(at as int);
            assert(rest =~= self.pending@.subrange(at as int, self.pending@.len() as int));
            match read_record(&self.pending[at..self.pending.len()]) {
                Record::Partial => {
                    going = false;
                },
                Record::Entry { entry, used } => {
                    let dot = text::same_text(entry.name.as_str(), ".") || text::same_text(
                        entry.name.as_str(),
                        "..",
                    );
                    if !dot {
                        let ghost before = self.entries@;
                        let ghost one = entry@;
                        self.entries.push(entry);
                        assert(entry_views(self.entries@) =~= entry_views(before).push(one));
                    }
                    at = at + used;
                    assert(rest.skip(used as int) =~= all.skip(at as int));
                },
                Record::Done { used } => {
                    at = at + used;
                    assert(rest.skip(used as int) =~= all.skip(at as int));
                    standing = Listing::Done;
                    going = false;
                },
                Record::Failed { message, used } => {
                    at = at + used;
                    assert(rest.skip(used as int) =~= all.skip(at as int));
                    standing = Listing::Failed(message);
                    going = false;
                },
                Record::Unexpected { id } => {
                    standing = Listing::Unexpected(id);
                    going = false;
                },
            }
        }
        let rest = vstd::slice::slice_to_vec(&self.pending[at..self.pending.len()]);
        assert(rest@ =~= all.skip(at as int));
        self.pending = rest;
        standing
    }

    /// The entries, once the listing is done.
    pub fn into_entries(self) -> (entries: Vec<SyncDirEntry>)
        ensures
            entry_views(entries@) == self.listed(),
    {
        self.entries
    }
}

proof fn lemma_record_stays(input: Seq<u8>, more: Seq<u8>)
    requires
        !(record_in(input) is Partial),
    ensures
        record_in(input + more) == record_in(input),
{
    let both = input + more;
    assert(wire::le32_at(both, 0) == wire::le32_at(input, 0));
    let id = wire::le32_at(input, 0) as u32;
    if id == ID_DENT {
        assert(wire::le32_at(both, 16) == wire::le32_at(input, 16));
        let used = 20 + wire::le32_at(input, 16);
        assert(both.subrange(20, used) =~= input.subrange(20, used));
    } else if id == ID_FAIL {
        assert(wire::le32_at(both, 4) == wire::le32_at(input, 4));
        let used = 8 + wire::le32_at(input, 4);
        assert(both.subrange(8, used) =~= input.subrange(8, used));
    }
}

/// A listing does not depend on how its reply arrives: reading it in two parts,
/// cut anywhere, gives what reading it in one gives.
pub proof fn law_a_listing_does_not_depend_on_how_it_arrives(
    entries: Seq<SyncDirEntryView>,
    first: Seq<u8>,
    second: Seq<u8>,
)
    ensures
        ({
            let (so_far, rest, standing) = listed(entries, first);
            standing is More ==> listed(entries, first + second) == listed(so_far, rest + second)
        }),
    decreases first.len(),
{
    match record_in(first) {
        RecordView::Entry { entry, used } => {
            lemma_record_stays(first, second);
            let next = if is_dot(entry.name) {
                entries
            } else {
                entries.push(entry)
            };
            law_a_listing_does_not_depend_on_how_it_arrives(next, first.skip(used), second);
            assert((first + second).skip(used) =~= first.skip(used) + second);
        },
        _ => {},
    }
}

/// How a pull stands.
#[derive(Debug, PartialEq, Eq)]
pub enum Pulling {
    More,
    Done,
    Failed(String),
    Unexpected(u32),
}

/// How a pull stands.
pub enum PullingView {
    More,
    Done,
    Failed(Seq<char>),
    Unexpected(u32),
}

impl View for Pulling {
    type V = PullingView;

    open spec fn view(&self) -> PullingView {
        match *self {
            Pulling::More => PullingView::More,
            Pulling::Done => PullingView::Done,
            Pulling::Failed(message) => PullingView::Failed(message@),
            Pulling::Unexpected(id) => PullingView::Unexpected(id),
        }
    }
}

/// What a stretch of a pull's reply brings: how much of the chunk in hand is
/// still to come, what is left of the input, the file's next bytes, and how the
/// pull stands. A chunk's bytes go to the file as they arrive. `DONE` carries a
/// time where a length would stand.
pub open spec fn pulled(remaining: int, input: Seq<u8>) -> (int, Seq<u8>, Seq<u8>, PullingView)
    decreases input.len(),
{
    if remaining > 0 {
        if input.len() <= remaining {
            (remaining - input.len(), Seq::empty(), input, PullingView::More)
        } else {
            let (left, rest, more, standing) = pulled(0, input.skip(remaining));
            (left, rest, input.take(remaining) + more, standing)
        }
    } else if input.len() < 8 {
        (0, input, Seq::empty(), PullingView::More)
    } else {
        let id = wire::le32_at(input, 0) as u32;
        let length = wire::le32_at(input, 4);
        if id == ID_DATA {
            pulled(length, input.skip(8))
        } else if id == ID_DONE {
            (0, input.skip(8), Seq::empty(), PullingView::Done)
        } else if id == ID_FAIL {
            if input.len() < 8 + length {
                (0, input, Seq::empty(), PullingView::More)
            } else {
                (
                    0,
                    input.skip(8 + length),
                    Seq::empty(),
                    PullingView::Failed(
                        text::trim(text::utf8_lossy(input.subrange(8, 8 + length))),
                    ),
                )
            }
        } else {
            (0, input, Seq::empty(), PullingView::Unexpected(id))
        }
    }
}

/// Reads the reply to a pull as it arrives.
pub struct PullReader {
    pending: Vec<u8>,
    remaining: u32,
}

impl PullReader {
    /// What has arrived and was not a whole header yet.
    pub closed spec fn pending(self) -> Seq<u8> {
        self.pending@
    }

    /// How much of the chunk in hand is still to come.
    pub closed spec fn remaining(self) -> int {
        self.remaining as int
    }

    pub fn new() -> (reader: Self)
        ensures
            reader.pending() == Seq::<u8>::empty(),
            reader.remaining() == 0,
    {
        PullReader { pending: Vec::new(), remaining: 0 }
    }

    /// Take what arrived, append the file's next bytes to `out`, and say how the
    /// pull stands.
    pub fn feed(&mut self, input: &[u8], out: &mut Vec<u8>) -> (pulling: Pulling)
        ensures
            ({
                let (remaining, rest, bytes, standing) = pulled(
                    old(self).remaining(),
                    old(self).pending() + input@,
                );
                &&& final(self).remaining() == remaining
                &&& final(self).pending() == rest
                &&& final(out)@ == old(out)@ + bytes
                &&& pulling@ == standing
            }),
    {
        wire::append(&mut self.pending, input);
        let ghost all = self.pending@;
        let ghost goal = pulled(self.remaining as int, all);
        let ghost start = out@;
        let mut at: usize = 0;
        let mut standing = Pulling::More;
        let mut going = true;
        assert(all.skip(0) =~= all);
        assert(start + goal.2 =~= out@ + goal.2);
        while going
            invariant
                at <= self.pending@.len(),
                self.pending@ == all,
                going ==> standing is More,
                going ==> ({
                    let here = pulled(self.remaining as int, all.skip(at as int));
                    &&& goal.0 == here.0
                    &&& goal.1 == here.1
                    &&& goal.3 == here.3
                    &&& start + goal.2 == out@ + here.2
                }),
                !going ==> ({
                    &&& goal.0 == self.remaining
                    &&& goal.1 == all.skip(at as int)
                    &&& goal.3 == standing@
                    &&& start + goal.2 == out@
                }),
            decreases all.len() - at + (if going { 1int } else { 0 }),
        {
            let ghost rest = all.skip(at as int);
            let ghost said = out@;
            let left: usize = self.pending.len() - at;
            if self.remaining > 0 {
                if left as u64 <= self.remaining as u64 {
                    assert(rest =~= self.pending@.subrange(at as int, self.pending@.len() as int));
                    wire::append(out, &self.pending[at..self.pending.len()]);
                    self.remaining = self.remaining - left as u32;
                    at = self.pending.len();
                    assert(all.skip(at as int) =~= Seq::<u8>::empty());
                    going = false;
                } else {
                    let end: usize = at + self.remaining as usize;
                    let ghost taken = rest.take(self.remaining as int);
                    assert(taken =~= self.pending@.subrange(at as int, end as int));
                    wire::append(out, &self.pending[at..end]);
                    assert(rest.skip(self.remaining as int) =~= all.skip(end as int));
                    proof {
                        let more = pulled(0, all.skip(end as int)).2;
                        assert(said + (taken + more) =~= out@ + more);
                    }
                    self.remaining = 0;
                    at = end;
                }
            } else if left < 8 {
                assert(out@ =~= out@ + Seq::<u8>::empty());
                going = false;
            } else {
                assert(rest =~= self.pending@.subrange(at as int, self.pending@.len() as int));
                let tail = &self.pending[at..self.pending.len()];
                let id: u32 = wire::read_le32(tail, 0);
                let length: u32 = wire::read_le32(tail, 4);
                if id == ID_DATA {
                    self.remaining = length;
                    at = at + 8;
                    assert(rest.skip(8) =~= all.skip(at as int));
                } else if id == ID_DONE {
                    at = at + 8;
                    assert(rest.skip(8) =~= all.skip(at as int));
                    assert(out@ =~= out@ + Seq::<u8>::empty());
                    standing = Pulling::Done;
                    going = false;
                } else if id == ID_FAIL {
                    if ((left - 8) as u64) < length as u64 {
                        assert(out@ =~= out@ + Seq::<u8>::empty());
                        going = false;
                    } else {
                        let end: usize = 8 + length as usize;
                        standing = Pulling::Failed(fail_message(&tail[8..end]));
                        at = at + end;
                        assert(rest.skip(end as int) =~= all.skip(at as int));
                        assert(out@ =~= out@ + Seq::<u8>::empty());
                        going = false;
                    }
                } else {
                    assert(out@ =~= out@ + Seq::<u8>::empty());
                    standing = Pulling::Unexpected(id);
                    going = false;
                }
            }
        }
        let rest = vstd::slice::slice_to_vec(&self.pending[at..self.pending.len()]);
        assert(rest@ =~= all.skip(at as int));
        self.pending = rest;
        standing
    }
}

/// What two stretches of a pull's reply bring, read one after the other.
pub open spec fn pulled_twice(remaining: int, first: Seq<u8>, second: Seq<u8>) -> (
    int,
    Seq<u8>,
    Seq<u8>,
    PullingView,
) {
    let (left, rest, bytes, standing) = pulled(remaining, first);
    let (left_after, rest_after, more, standing_after) = pulled(left, rest + second);
    (left_after, rest_after, bytes + more, standing_after)
}

proof fn lemma_pull_within_chunk(remaining: int, first: Seq<u8>, second: Seq<u8>)
    requires
        remaining > 0,
        first.len() <= remaining,
    ensures
        pulled(remaining, first + second) == pulled_twice(remaining, first, second),
{
    let both = first + second;
    let left = remaining - first.len();
    assert(pulled(remaining, first) == (left, Seq::<u8>::empty(), first, PullingView::More));
    assert(Seq::<u8>::empty() + second =~= second);
    if both.len() <= remaining {
        if left == 0 {
            assert(second =~= Seq::<u8>::empty());
            assert(pulled(0, second) == (
                0int,
                Seq::<u8>::empty(),
                Seq::<u8>::empty(),
                PullingView::More,
            ));
            assert(first + Seq::<u8>::empty() =~= both);
        } else {
            assert(pulled(left, second) == (
                left - second.len(),
                Seq::<u8>::empty(),
                second,
                PullingView::More,
            ));
        }
    } else if left == 0 {
        assert(both.skip(remaining) =~= second);
        assert(both.take(remaining) =~= first);
    } else {
        assert(both.skip(remaining) =~= second.skip(left));
        let (l, r, more, s) = pulled(0, second.skip(left));
        assert(pulled(left, second) == (l, r, second.take(left) + more, s));
        assert(both.take(remaining) + more =~= first + (second.take(left) + more));
    }
}

proof fn lemma_header_stays(first: Seq<u8>, second: Seq<u8>)
    requires
        first.len() >= 8,
    ensures
        wire::le32_at(first + second, 0) == wire::le32_at(first, 0),
        wire::le32_at(first + second, 4) == wire::le32_at(first, 4),
        (first + second).skip(8) == first.skip(8) + second,
{
    assert((first + second).skip(8) =~= first.skip(8) + second);
}

/// A pull does not depend on how its reply arrives: reading it in two parts, cut
/// anywhere, brings the same bytes and stands the same as reading it in one.
pub proof fn law_a_pull_does_not_depend_on_how_it_arrives(
    remaining: int,
    first: Seq<u8>,
    second: Seq<u8>,
)
    requires
        remaining >= 0,
    ensures
        pulled(remaining, first).3 is More ==> pulled(remaining, first + second) == pulled_twice(
            remaining,
            first,
            second,
        ),
    decreases first.len(),
{
    if remaining > 0 && first.len() <= remaining {
        lemma_pull_within_chunk(remaining, first, second);
    } else if remaining > 0 {
        let both = first + second;
        law_a_pull_does_not_depend_on_how_it_arrives(0, first.skip(remaining), second);
        assert(both.skip(remaining) =~= first.skip(remaining) + second);
        assert(both.take(remaining) =~= first.take(remaining));
        let (left, rest, bytes, standing) = pulled(0, first.skip(remaining));
        let more = pulled(left, rest + second).2;
        assert(first.take(remaining) + (bytes + more) =~= first.take(remaining) + bytes + more);
    } else {
        let nothing = Seq::<u8>::empty();
        assert(nothing + pulled(0, first + second).2 =~= pulled(0, first + second).2);
        if first.len() >= 8 {
            lemma_header_stays(first, second);
            let length = wire::le32_at(first, 4);
            if wire::le32_at(first, 0) as u32 == ID_DATA {
                assert(pulled(0, first) == pulled(length, first.skip(8)));
                assert(pulled(0, first + second) == pulled(length, first.skip(8) + second));
                law_a_pull_does_not_depend_on_how_it_arrives(length, first.skip(8), second);
            }
        }
    }
}

proof fn lemma_frame_header(id: u32, bytes: Seq<u8>, after: Seq<u8>)
    requires
        bytes.len() <= u32::MAX,
    ensures
        ({
            let input = frame(id, bytes) + after;
            &&& wire::le32_at(input, 0) == id
            &&& wire::le32_at(input, 4) == bytes.len()
            &&& input.skip(8) == bytes + after
            &&& input.len() >= 8
        }),
{
    let a = wire::le32(id);
    let b = wire::le32(bytes.len() as u32);
    let input = frame(id, bytes) + after;
    assert(input =~= Seq::<u8>::empty() + a + (b + bytes + after));
    wire::law_le32_reads_back(id, Seq::empty(), b + bytes + after);
    assert(input =~= a + b + (bytes + after));
    wire::law_le32_reads_back(bytes.len() as u32, a, bytes + after);
    assert(input.skip(8) =~= bytes + after);
}

proof fn lemma_pull_done(mtime: u32)
    ensures
        pulled(0, wire::le32(ID_DONE) + wire::le32(mtime)) == (
            0int,
            Seq::<u8>::empty(),
            Seq::<u8>::empty(),
            PullingView::Done,
        ),
{
    let input = wire::le32(ID_DONE) + wire::le32(mtime);
    assert(input =~= Seq::<u8>::empty() + wire::le32(ID_DONE) + wire::le32(mtime));
    wire::law_le32_reads_back(ID_DONE, Seq::empty(), wire::le32(mtime));
    assert(input.skip(8) =~= Seq::<u8>::empty());
}

proof fn lemma_pull_chunk(chunk: Seq<u8>, after: Seq<u8>)
    requires
        0 < chunk.len() <= u32::MAX,
        after.len() > 0,
    ensures
        ({
            let (left, rest, bytes, standing) = pulled(0, after);
            pulled(0, frame(ID_DATA, chunk) + after) == (left, rest, chunk + bytes, standing)
        }),
{
    let n = chunk.len() as int;
    let input = frame(ID_DATA, chunk) + after;
    lemma_frame_header(ID_DATA, chunk, after);
    assert(pulled(0, input) == pulled(n, chunk + after));
    assert((chunk + after).skip(n) =~= after);
    assert((chunk + after).take(n) =~= chunk);
}

/// Data that was cut into frames, the way a push cuts it, comes out of a pull
/// whole, and the pull is done after it.
pub proof fn law_a_pull_puts_chunks_together(data: Seq<u8>, mtime: u32)
    ensures
        pulled(0, data_frames(data) + (wire::le32(ID_DONE) + wire::le32(mtime))) == (
            0int,
            Seq::<u8>::empty(),
            data,
            PullingView::Done,
        ),
    decreases data.len(),
{
    let done = wire::le32(ID_DONE) + wire::le32(mtime);
    if data.len() == 0 {
        assert(data_frames(data) + done =~= done);
        assert(data =~= Seq::<u8>::empty());
        lemma_pull_done(mtime);
    } else {
        let n = if data.len() <= SYNC_CHUNK {
            data.len() as int
        } else {
            SYNC_CHUNK as int
        };
        let chunk = data.take(n);
        let rest = data.skip(n);
        assert(data.len() <= SYNC_CHUNK ==> chunk =~= data);
        assert(data.len() <= SYNC_CHUNK ==> rest =~= Seq::<u8>::empty());
        let after = data_frames(rest) + done;
        assert(data_frames(data) =~= frame(ID_DATA, chunk) + data_frames(rest));
        assert(data_frames(data) + done =~= frame(ID_DATA, chunk) + after);
        lemma_pull_chunk(chunk, after);
        law_a_pull_puts_chunks_together(rest, mtime);
        assert(chunk + rest =~= data);
    }
}

/// The model that a device's fields name. Underscores are adb's escaping of
/// spaces.
pub open spec fn model_in(fields: Seq<Seq<char>>) -> Option<Seq<char>>
    decreases fields.len(),
{
    if fields.len() == 0 {
        None
    } else {
        match text::strip_prefix(fields[0], "model:"@) {
            Some(model) => Some(text::replaced(model, '_', ' ')),
            None => model_in(fields.drop_first()),
        }
    }
}

/// The device in one line: a serial, a state and `key:value` fields.
pub open spec fn device_in(line: Seq<char>) -> Option<AdbDeviceView> {
    let fields = text::words(line);
    if fields.len() < 2 {
        None
    } else {
        Some(
            AdbDeviceView {
                serial: fields[0],
                state: fields[1],
                model: model_in(fields.skip(2)),
            },
        )
    }
}

/// The devices in these lines, without the lines that name none.
pub open spec fn devices_in(lines: Seq<Seq<char>>) -> Seq<AdbDeviceView>
    decreases lines.len(),
{
    if lines.len() == 0 {
        Seq::empty()
    } else {
        let before = devices_in(lines.drop_last());
        match device_in(lines.last()) {
            Some(device) => before.push(device),
            None => before,
        }
    }
}

fn parse_model(fields: &[Vec<char>]) -> (model: Option<String>)
    ensures
        text::text_in(model) == model_in(text::texts(fields@)),
{
    let ghost all = text::texts(fields@);
    let mut i: usize = 0;
    assert(all.skip(0) =~= all);
    while i < fields.len()
        invariant
            i <= fields.len(),
            all == text::texts(fields@),
            model_in(all) == model_in(all.skip(i as int)),
        decreases fields.len() - i,
    {
        assert(all.skip(i as int)[0] == fields@[i as int]@);
        assert(all.skip(i as int).drop_first() =~= all.skip(i + 1));
        match text::after_prefix(&fields[i], "model:") {
            Some(model) => {
                return Some(text::string_of(&text::with_replaced(model, '_', ' ')));
            },
            None => {},
        }
        i += 1;
    }
    None
}

fn parse_device(line: &[char]) -> (device: Option<AdbDevice>)
    ensures
        match device {
            Some(device) => device_in(line@) == Some(device@),
            None => device_in(line@) is None,
        },
{
    let fields = text::words_of(line);
    let ghost all = text::texts(fields@);
    assert(all.len() == fields@.len());
    if fields.len() < 2 {
        return None;
    }
    let rest = &fields[2..fields.len()];
    assert(text::texts(rest@) =~= all.skip(2));
    assert(all[0] == fields@[0]@ && all[1] == fields@[1]@);
    Some(
        AdbDevice {
            serial: text::string_of(&fields[0]),
            state: text::string_of(&fields[1]),
            model: parse_model(rest),
        },
    )
}

/// Parse the `host:devices-l` payload.
///
/// Lines are `serial<TAB>state key:value key:value…`, and a device that is
/// merely present (unauthorized, offline, still in bootloader) appears here
/// exactly like a usable one, so the state word is the only thing that says
/// whether it can be driven.
pub fn parse_devices(payload: &str) -> (devices: Vec<AdbDevice>)
    ensures
        device_views(devices@) == devices_in(text::lines(payload@)),
{
    let chars = text::chars_of(payload);
    let lines = text::lines_of(&chars);
    let ghost all = text::texts(lines@);
    let mut devices: Vec<AdbDevice> = Vec::new();
    let mut i: usize = 0;
    assert(all.take(0) =~= Seq::<Seq<char>>::empty());
    assert(device_views(devices@) =~= Seq::<AdbDeviceView>::empty());
    while i < lines.len()
        invariant
            i <= lines@.len(),
            all == text::texts(lines@),
            device_views(devices@) == devices_in(all.take(i as int)),
        decreases lines@.len() - i,
    {
        let ghost more = all.take(i + 1);
        let ghost before = devices@;
        assert(more.drop_last() =~= all.take(i as int));
        assert(more.last() == lines@[i as int]@);
        match parse_device(&lines[i]) {
            Some(device) => {
                let ghost one = device@;
                devices.push(device);
                assert(device_views(devices@) =~= device_views(before).push(one));
            },
            None => {},
        }
        i += 1;
    }
    assert(all.take(i as int) =~= all);
    devices
}

/// The property in one line of a `getprop` dump: `[key]: [value]`.
pub open spec fn property_in(line: Seq<char>) -> Option<(Seq<char>, Seq<char>)> {
    match text::strip_prefix(text::trim(line), "["@) {
        None => None,
        Some(rest) => match text::split_at_text(rest, "]: ["@, 0) {
            None => None,
            Some((key, rest)) => match text::strip_suffix(rest, "]"@) {
                None => None,
                Some(value) => Some((key, value)),
            },
        },
    }
}

/// The properties in these lines, without the lines that hold none.
pub open spec fn properties_in(lines: Seq<Seq<char>>) -> Seq<(Seq<char>, Seq<char>)>
    decreases lines.len(),
{
    if lines.len() == 0 {
        Seq::empty()
    } else {
        let before = properties_in(lines.drop_last());
        match property_in(lines.last()) {
            Some(property) => before.push(property),
            None => before,
        }
    }
}

fn parse_property(line: &[char]) -> (property: Option<(String, String)>)
    ensures
        match property {
            Some((key, value)) => property_in(line@) == Some((key@, value@)),
            None => property_in(line@) is None,
        },
{
    let rest = match text::after_prefix(text::trimmed(line), "[") {
        Some(rest) => rest,
        None => {
            return None;
        },
    };
    match text::parted_by(rest, "]: [") {
        None => None,
        Some((key, rest)) => {
            match text::before_suffix(rest, "]") {
                None => None,
                Some(value) => Some((text::string_of(key), text::string_of(value))),
            }
        },
    }
}

/// Turn a `getprop` dump into a lookup table.
///
/// One `getprop` round-trip beats one per property: each is a full transport
/// setup, and the poll loop reads half a dozen of them.
pub fn parse_getprop(dump: &str) -> (properties: Table)
    ensures
        properties@ == properties_in(text::lines(dump@)),
{
    let chars = text::chars_of(dump);
    let lines = text::lines_of(&chars);
    let ghost all = text::texts(lines@);
    let mut entries: Vec<(String, String)> = Vec::new();
    let mut i: usize = 0;
    assert(all.take(0) =~= Seq::<Seq<char>>::empty());
    assert(table::pair_views(entries@) =~= Seq::<(Seq<char>, Seq<char>)>::empty());
    while i < lines.len()
        invariant
            i <= lines@.len(),
            all == text::texts(lines@),
            table::pair_views(entries@) == properties_in(all.take(i as int)),
        decreases lines@.len() - i,
    {
        let ghost more = all.take(i + 1);
        let ghost before = entries@;
        assert(more.drop_last() =~= all.take(i as int));
        assert(more.last() == lines@[i as int]@);
        match parse_property(&lines[i]) {
            Some(property) => {
                let ghost one = (property.0@, property.1@);
                entries.push(property);
                assert(table::pair_views(entries@) =~= table::pair_views(before).push(one));
            },
            None => {},
        }
        i += 1;
    }
    assert(all.take(i as int) =~= all);
    Table::new(entries)
}

/// The ids of the sync protocol are their four letters on the wire, in reading order.
pub proof fn law_ids_are_spelt_on_the_wire()
    ensures
        wire::le32(ID_OKAY) == seq![0x4Fu8, 0x4B, 0x41, 0x59],
        wire::le32(ID_FAIL) == seq![0x46u8, 0x41, 0x49, 0x4C],
        wire::le32(ID_SEND) == seq![0x53u8, 0x45, 0x4E, 0x44],
        wire::le32(ID_LIST) == seq![0x4Cu8, 0x49, 0x53, 0x54],
        wire::le32(ID_RECV) == seq![0x52u8, 0x45, 0x43, 0x56],
        wire::le32(ID_DATA) == seq![0x44u8, 0x41, 0x54, 0x41],
        wire::le32(ID_DENT) == seq![0x44u8, 0x45, 0x4E, 0x54],
        wire::le32(ID_DONE) == seq![0x44u8, 0x4F, 0x4E, 0x45],
{
}

/// A directory entry as a device writes it.
pub open spec fn dent_bytes(mode: u32, size: u32, mtime: u32, name: Seq<u8>) -> Seq<u8> {
    wire::le32(ID_DENT) + wire::le32(mode) + wire::le32(size) + wire::le32(mtime) + wire::le32(
        name.len() as u32,
    ) + name
}

/// A listing gives the entries that the device wrote, in their order and each with its
/// own mode, size and time, but for the directory itself and its parent. What follows
/// an entry is read on from its end.
pub proof fn law_a_listing_reads_back(
    entries: Seq<SyncDirEntryView>,
    mode: u32,
    size: u32,
    mtime: u32,
    name: Seq<u8>,
    rest: Seq<u8>,
)
    requires
        name.len() <= u32::MAX,
    ensures
        ({
            let shown = text::utf8_lossy(name);
            let entry = SyncDirEntryView { name: shown, mode, size, mtime };
            listed(entries, dent_bytes(mode, size, mtime, name) + rest) == listed(
                if shown == "."@ || shown == ".."@ {
                    entries
                } else {
                    entries.push(entry)
                },
                rest,
            )
        }),
{
    let (a, b, c) = (wire::le32(ID_DENT), wire::le32(mode), wire::le32(size));
    let (d, e) = (wire::le32(mtime), wire::le32(name.len() as u32));
    let input = dent_bytes(mode, size, mtime, name) + rest;
    let none = Seq::<u8>::empty();
    assert(input =~= none + a + (b + c + d + e + name + rest));
    wire::law_le32_reads_back(ID_DENT, none, b + c + d + e + name + rest);
    assert(input =~= a + b + (c + d + e + name + rest));
    wire::law_le32_reads_back(mode, a, c + d + e + name + rest);
    assert(input =~= (a + b) + c + (d + e + name + rest));
    wire::law_le32_reads_back(size, a + b, d + e + name + rest);
    assert(input =~= (a + b + c) + d + (e + name + rest));
    wire::law_le32_reads_back(mtime, a + b + c, e + name + rest);
    assert(input =~= (a + b + c + d) + e + (name + rest));
    wire::law_le32_reads_back(name.len() as u32, a + b + c + d, name + rest);
    let used = (20 + name.len()) as int;
    assert(input.subrange(20, used) =~= name);
    assert(input.skip(used) =~= rest);
}

/// A listing ends where the device says so, with the entries so far, and one that the
/// device refuses ends with its own words.
pub proof fn law_a_listing_ends_as_the_device_says(
    entries: Seq<SyncDirEntryView>,
    stat: Seq<u8>,
    words: Seq<u8>,
    rest: Seq<u8>,
)
    requires
        stat.len() == 16,
        words.len() <= u32::MAX,
    ensures
        listed(entries, wire::le32(ID_DONE) + stat + rest) == (entries, rest, ListingView::Done),
        listed(entries, frame(ID_FAIL, words) + rest) == (
            entries,
            rest,
            ListingView::Failed(text::trim(text::utf8_lossy(words))),
        ),
        pulled(0, frame(ID_FAIL, words) + rest) == (
            0int,
            rest,
            Seq::<u8>::empty(),
            PullingView::Failed(text::trim(text::utf8_lossy(words))),
        ),
{
    let none = Seq::<u8>::empty();
    let done = wire::le32(ID_DONE) + stat + rest;
    wire::law_le32_reads_back(ID_DONE, none, stat + rest);
    assert(done =~= none + wire::le32(ID_DONE) + (stat + rest));
    assert(done.skip(20) =~= rest);
    let length = wire::le32(words.len() as u32);
    let failed = frame(ID_FAIL, words) + rest;
    assert(failed =~= none + wire::le32(ID_FAIL) + (length + words + rest));
    wire::law_le32_reads_back(ID_FAIL, none, length + words + rest);
    assert(failed =~= wire::le32(ID_FAIL) + length + (words + rest));
    wire::law_le32_reads_back(words.len() as u32, wire::le32(ID_FAIL), words + rest);
    let used = (8 + words.len()) as int;
    assert(failed.subrange(8, used) =~= words);
    assert(failed.skip(used) =~= rest);
}

/// A request says how long it is: its first four characters are the number of bytes
/// that follow, which is how the other side reads them.
pub proof fn law_a_request_says_how_long_it_is(service: Seq<char>)
    requires
        vstd::utf8::encode_utf8(service).len() < 0x1_0000,
    ensures
        ({
            let framed = request_text(service);
            let length = vstd::utf8::encode_utf8(service).len();
            &&& framed.len() == 4 + service.len()
            &&& framed.skip(4) == service
            &&& text::unsigned_in(framed.take(4), 16, 0xFFFF) == Some(length as int)
        }),
{
    let length = vstd::utf8::encode_utf8(service).len();
    let prefix = text::hex(length, 4, false);
    text::law_hex_reads_back(length, 4, false);
    reveal_with_fuel(text::hex, 5);
    assert(request_text(service).take(4) =~= prefix);
    assert(request_text(service).skip(4) =~= service);
}

/// A property reads back from its line, whatever its value holds, as long as its key
/// does not run into what parts the two.
pub proof fn law_a_property_reads_back(key: Seq<char>, value: Seq<char>)
    requires
        forall|i: int|
            0 <= i < key.len() ==> !#[trigger] text::stands_at(
                key + "]: ["@ + value + "]"@,
                "]: ["@,
                i,
            ),
    ensures
        property_in("["@ + key + "]: ["@ + value + "]"@) == Some((key, value)),
{
    reveal_strlit("[");
    reveal_strlit("]");
    reveal_strlit("]: [");
    let line = "["@ + key + "]: ["@ + value + "]"@;
    let rest = key + "]: ["@ + value + "]"@;
    assert(line[0] == '[' && line.last() == ']');
    assert(!text::is_white('[') && !text::is_white(']'));
    assert(text::trim_start(line) == line);
    assert(text::trim(line) == line);
    assert("["@.is_prefix_of(line)) by {
        assert(line.take(1) =~= "["@);
    }
    assert(line.skip(1) =~= rest);
    let at = key.len() as int;
    assert(rest.subrange(at, at + 4) =~= "]: ["@);
    text::lemma_first_stands(rest, "]: ["@, 0, at);
    assert(rest.take(at) =~= key);
    let tail = rest.skip(at + 4);
    assert(tail =~= value + "]"@);
    assert("]"@.is_suffix_of(tail)) by {
        assert(tail.subrange(tail.len() - 1, tail.len() as int) =~= "]"@);
    }
    assert(tail.take(tail.len() - 1) =~= value);
}

/// A line of the device list reads back: its serial, its state, and its model wherever
/// among the rest that stands, with the blanks that it went without.
pub proof fn law_a_device_line_reads_back(
    serial: Seq<char>,
    state: Seq<char>,
    before: Seq<Seq<char>>,
    model: Seq<char>,
    after: Seq<Seq<char>>,
)
    requires
        text::is_word(serial),
        text::is_word(state),
        text::is_word("model:"@ + model),
        forall|i: int|
            0 <= i < before.len() ==> text::is_word(#[trigger] before[i])
                && !"model:"@.is_prefix_of(before[i]),
        forall|i: int| 0 <= i < after.len() ==> text::is_word(#[trigger] after[i]),
    ensures
        ({
            let fields = seq![serial, state] + before + seq!["model:"@ + model] + after;
            let device = device_in(text::join(fields, seq![' ']));
            &&& device is Some
            &&& device->0.serial == serial
            &&& device->0.state == state
            &&& device->0.model == Some(text::replaced(model, '_', ' '))
        }),
        device_in(text::join(seq![serial, state] + before, seq![' '])) == Some(
            AdbDeviceView { serial, state, model: None },
        ),
        device_in(serial) is None,
{
    let fields = seq![serial, state] + before + seq!["model:"@ + model] + after;
    assert forall|i: int| 0 <= i < fields.len() implies text::is_word(#[trigger] fields[i]) by {
        let n = before.len();
        if 2 <= i < 2 + n {
            assert(fields[i] == before[i - 2]);
        } else if i > 2 + n {
            assert(fields[i] == after[i - 3 - n]);
        }
    }
    text::law_words_read_back(fields);
    assert(fields.skip(2) =~= before + seq!["model:"@ + model] + after);
    lemma_model_found(before, model, after);
    let few = seq![serial, state] + before;
    assert forall|i: int| 0 <= i < few.len() implies text::is_word(#[trigger] few[i]) by {
        if 2 <= i {
            assert(few[i] == before[i - 2]);
        }
    }
    text::law_words_read_back(few);
    assert(few.skip(2) =~= before);
    lemma_no_model(before);
    text::law_words_are_parted_by_white_space(serial, ' ', Seq::empty());
}

proof fn lemma_no_model(before: Seq<Seq<char>>)
    requires
        forall|i: int| 0 <= i < before.len() ==> !"model:"@.is_prefix_of(#[trigger] before[i]),
    ensures
        model_in(before) is None,
    decreases before.len(),
{
    if before.len() > 0 {
        let rest = before.drop_first();
        assert forall|i: int| 0 <= i < rest.len() implies !"model:"@.is_prefix_of(
            #[trigger] rest[i],
        ) by {
            assert(rest[i] == before[i + 1]);
        }
        lemma_no_model(rest);
    }
}

proof fn lemma_model_found(before: Seq<Seq<char>>, model: Seq<char>, after: Seq<Seq<char>>)
    requires
        forall|i: int| 0 <= i < before.len() ==> !"model:"@.is_prefix_of(#[trigger] before[i]),
    ensures
        model_in(before + seq!["model:"@ + model] + after) == Some(
            text::replaced(model, '_', ' '),
        ),
    decreases before.len(),
{
    let fields = before + seq!["model:"@ + model] + after;
    if before.len() == 0 {
        text::law_only_the_affix_comes_off(model, "model:"@);
        assert(fields[0] == "model:"@ + model);
    } else {
        let rest = before.drop_first();
        assert forall|i: int| 0 <= i < rest.len() implies !"model:"@.is_prefix_of(
            #[trigger] rest[i],
        ) by {
            assert(rest[i] == before[i + 1]);
        }
        lemma_model_found(rest, model, after);
        assert(fields[0] == before[0]);
        assert(fields.drop_first() =~= rest + seq!["model:"@ + model] + after);
    }
}

/// A push goes the way a pull comes: behind the request, which names the file and how it
/// may be used, it is what the device would send to hand the same bytes out.
pub proof fn law_what_is_pushed_can_be_pulled(
    path: Seq<char>,
    data: Seq<u8>,
    mode: u32,
    mtime: u32,
)
    requires
        vstd::utf8::encode_utf8(path + ","@ + text::decimal(mode as nat)).len() <= u32::MAX,
    ensures
        ({
            let sent = push_bytes(path, data, mode, mtime);
            let named = vstd::utf8::encode_utf8(path + ","@ + text::decimal(mode as nat));
            let behind = (8 + named.len()) as int;
            &&& sent.take(4) == wire::le32(ID_SEND)
            &&& wire::le32_at(sent, 4) == named.len()
            &&& sent.subrange(8, behind) == named
            &&& pulled(0, sent.skip(behind)) == (
                0int,
                Seq::<u8>::empty(),
                data,
                PullingView::Done,
            )
            &&& wire::le32_at(sent, sent.len() - 4) == mtime
        }),
{
    let sent = push_bytes(path, data, mode, mtime);
    let named = vstd::utf8::encode_utf8(path + ","@ + text::decimal(mode as nat));
    let behind = (8 + named.len()) as int;
    let done = wire::le32(ID_DONE) + wire::le32(mtime);
    let rest = data_frames(data) + done;
    assert(sent =~= frame(ID_SEND, named) + rest);
    lemma_frame_header(ID_SEND, named, rest);
    assert(sent.take(4) =~= wire::le32(ID_SEND));
    assert(sent.subrange(8, behind) =~= named);
    assert(sent.skip(behind) =~= rest);
    law_a_pull_puts_chunks_together(data, mtime);
    let before = frame(ID_SEND, named) + data_frames(data) + wire::le32(ID_DONE);
    assert(sent =~= before + wire::le32(mtime) + Seq::<u8>::empty());
    wire::law_le32_reads_back(mtime, before, Seq::empty());
    assert(wire::le32(mtime).len() == 4);
}

} // verus!
