//! The scrcpy server: starting it, and reading and writing its two sockets.
//!
//! The video socket carries, in this order:
//!
//! ```text
//!   1  byte   dummy (0x00), so a client can detect a failed connection
//!   64 bytes  device name, UTF-8, NUL-padded
//!   4  bytes  codec id, big-endian: 0x68323634 "h264"
//!   4  bytes  flags (bit 31 set)
//!   4  bytes  width
//!   4  bytes  height
//!   then, per packet:
//!   8  bytes  pts and flags, big-endian: bit 63 session, 62 config, 61 key
//!   4  bytes  payload size
//!   n  bytes  Annex-B payload
//! ```

use crate::backend_android::h264;
use crate::text;
use crate::video;
use crate::video::{AccessUnit, CodecDescription};
use crate::wire;
use vstd::prelude::*;
use vstd::string::*;

pub mod control_message;
pub mod device_message;
pub mod touch_action;

verus! {

/// H.264. The only codec this backend asks for: it is what every Android encoder
/// and every browser agrees on.
pub const CODEC_H264: u32 = 0x6832_3634;

/// How long the handshake is up to and including the codec id.
pub const HANDSHAKE_CODEC_END: usize = 69;

/// How long the whole handshake is.
pub const HANDSHAKE_LEN: usize = 81;

pub const PACKET_HEADER_LEN: usize = 12;

/// Full pressure, in the 16-bit fixed-point form scrcpy expects.
pub const PRESSURE_MAX: u16 = 0xFFFF;

/// Options that shape the encode. Everything else scrcpy offers is left at its
/// default on purpose: each one is a way for a device to behave differently from
/// every other device.
#[derive(Debug, Clone, Copy, PartialEq, Eq, Structural)]
pub struct ScrcpyOptions {
    pub max_size: u32,
    pub bit_rate: u32,
    pub max_fps: u32,
}

impl Default for ScrcpyOptions {
    fn default() -> (options: Self)
        ensures
            options == ScrcpyOptions::usual(),
    {
        ScrcpyOptions { max_size: 1280, bit_rate: 8_000_000, max_fps: 60 }
    }
}

impl ScrcpyOptions {
    /// A phone's native panel is far more than a browser window shows, and every
    /// extra pixel is bandwidth and encode latency.
    pub open spec fn usual() -> ScrcpyOptions {
        ScrcpyOptions { max_size: 1280, bit_rate: 8_000_000, max_fps: 60 }
    }
}

/// The session id for a counter: only its low 31 bits. Ids only have to be
/// unique among live sessions on one device.
pub fn session_id(counter: u32) -> (scid: u32)
    ensures
        scid == counter % 0x8000_0000,
{
    counter % 0x8000_0000
}

/// The command that starts the server on the device.
pub open spec fn server_command_text(scid: u32, options: ScrcpyOptions) -> Seq<char> {
    "CLASSPATH=/data/local/tmp/farm-scrcpy-server.jar app_process / com.genymobile.scrcpy.Server 4.1 scid="@
        + text::hex(scid as nat, 8, false)
        + " log_level=info video=true audio=false control=true tunnel_forward=true video_codec=h264 max_size="@
        + text::decimal(options.max_size as nat) + " video_bit_rate="@ + text::decimal(
        options.bit_rate as nat,
    ) + " max_fps="@ + text::decimal(options.max_fps as nat) + " cleanup=true"@
}

/// The command that starts the server on the device. The version must match the
/// jar exactly: the server refuses a client that claims another.
pub fn server_command(scid: u32, options: &ScrcpyOptions) -> (command: String)
    ensures
        command@ == server_command_text(scid, *options),
{
    let mut out = String::new();
    out.append(
        "CLASSPATH=/data/local/tmp/farm-scrcpy-server.jar app_process / com.genymobile.scrcpy.Server 4.1 scid=",
    );
    text::push_hex(&mut out, scid as u64, 8, false);
    out.append(
        " log_level=info video=true audio=false control=true tunnel_forward=true video_codec=h264 max_size=",
    );
    text::push_decimal(&mut out, options.max_size as u64);
    out.append(" video_bit_rate=");
    text::push_decimal(&mut out, options.bit_rate as u64);
    out.append(" max_fps=");
    text::push_decimal(&mut out, options.max_fps as u64);
    out.append(" cleanup=true");
    assert(out@ =~= server_command_text(scid, *options));
    out
}

/// The device-side socket that the server of a session listens on.
pub fn socket_name(scid: u32) -> (name: String)
    ensures
        name@ == "localabstract:scrcpy_"@ + text::hex(scid as nat, 8, false),
{
    let mut out = String::new();
    out.append("localabstract:scrcpy_");
    text::push_hex(&mut out, scid as u64, 8, false);
    assert(out@ =~= "localabstract:scrcpy_"@ + text::hex(scid as nat, 8, false));
    out
}

/// What the server says of itself before the first packet.
#[derive(Debug)]
pub struct ServerHandshake {
    pub device_name: String,
    pub width: i64,
    pub height: i64,
}

/// How many bytes come before the first NUL.
pub open spec fn before_nul(bytes: Seq<u8>) -> int
    decreases bytes.len(),
{
    if bytes.len() == 0 || bytes[0] == 0 {
        0
    } else {
        1 + before_nul(bytes.drop_first())
    }
}

/// The device name, the width and the height that a handshake gives, where
/// enough of it has arrived; or the codec, where it is not the one that was
/// asked for.
pub open spec fn handshake_in(input: Seq<u8>) -> Result<Option<(Seq<char>, i64, i64)>, u32> {
    if input.len() < HANDSHAKE_CODEC_END {
        Ok(None)
    } else if wire::be32_at(input, 65) != CODEC_H264 {
        Err(wire::be32_at(input, 65) as u32)
    } else if input.len() < HANDSHAKE_LEN {
        Ok(None)
    } else {
        let name = input.subrange(1, 65);
        Ok(
            Some(
                (
                    text::utf8_lossy(name.take(before_nul(name))),
                    wire::be32_at(input, 73) as i64,
                    wire::be32_at(input, 77) as i64,
                ),
            ),
        )
    }
}

fn nul_at(bytes: &[u8]) -> (at: usize)
    ensures
        at == before_nul(bytes@),
        at <= bytes@.len(),
{
    let mut i: usize = 0;
    assert(bytes@.skip(0) =~= bytes@);
    while i < bytes.len() && bytes[i] != 0
        invariant
            i <= bytes.len(),
            before_nul(bytes@) == i + before_nul(bytes@.skip(i as int)),
        decreases bytes.len() - i,
    {
        assert(bytes@.skip(i as int).drop_first() =~= bytes@.skip(i + 1));
        i += 1;
    }
    i
}

/// Read the server's handshake. Nothing where more of it is still to come; the
/// codec where the device negotiated another than H.264, which is refused rather
/// than fed to a browser that was not told about it.
pub fn read_handshake(input: &[u8]) -> (handshake: Result<Option<ServerHandshake>, u32>)
    ensures
        match handshake {
            Ok(Some(said)) => handshake_in(input@) == Ok::<_, u32>(
                Some((said.device_name@, said.width, said.height)),
            ),
            Ok(None) => handshake_in(input@) == Ok::<Option<(Seq<char>, i64, i64)>, u32>(None),
            Err(codec) => handshake_in(input@) == Err::<Option<(Seq<char>, i64, i64)>, u32>(codec),
        },
{
    if input.len() < HANDSHAKE_CODEC_END {
        return Ok(None);
    }
    let codec: u32 = wire::read_be32(input, 65);
    if codec != CODEC_H264 {
        return Err(codec);
    }
    if input.len() < HANDSHAKE_LEN {
        return Ok(None);
    }
    let name = &input[1..65];
    let end: usize = nul_at(name);
    assert(name@.subrange(0, end as int) =~= name@.take(end as int));
    let device_name = text::lossy_text(&name[0..end]);
    Ok(
        Some(
            ServerHandshake {
                device_name,
                width: wire::read_be32(input, 73) as i64,
                height: wire::read_be32(input, 77) as i64,
            },
        ),
    )
}

/// The header of one video packet, as the server frames it.
#[derive(Debug, Clone, Copy, PartialEq, Eq, Structural)]
pub struct PacketHeader {
    pub is_config: bool,
    pub is_key: bool,
    pub size: u32,
}

/// What a packet header says. Bit 62 of the first eight bytes marks a config
/// packet, bit 61 a key frame; the rest of them is the timestamp.
pub open spec fn packet_header_in(header: Seq<u8>) -> PacketHeader {
    PacketHeader {
        is_config: wire::be64_at(header, 0) / 0x4000_0000_0000_0000 % 2 == 1,
        is_key: wire::be64_at(header, 0) / 0x2000_0000_0000_0000 % 2 == 1,
        size: wire::be32_at(header, 8) as u32,
    }
}

/// Read a packet header.
pub fn read_packet_header(header: &[u8]) -> (packet: PacketHeader)
    requires
        header@.len() == PACKET_HEADER_LEN,
    ensures
        packet == packet_header_in(header@),
{
    let pts_and_flags: u64 = wire::read_be64(header, 0);
    PacketHeader {
        is_config: pts_and_flags / 0x4000_0000_0000_0000 % 2 == 1,
        is_key: pts_and_flags / 0x2000_0000_0000_0000 % 2 == 1,
        size: wire::read_be32(header, 8),
    }
}

/// What the server writes before a packet reads back. The timestamp is below bit 61,
/// whether the packet holds the configuration is in bit 62, whether it is a key frame
/// in bit 61, and whether it opens a session, which nobody looks at, in bit 63.
pub proof fn law_a_packet_header_reads_back(
    pts: u64,
    session: bool,
    is_config: bool,
    is_key: bool,
    size: u32,
)
    requires
        pts < 0x2000_0000_0000_0000,
    ensures
        ({
            let bit = |set: bool, value: int|
                if set {
                    value
                } else {
                    0
                };
            let word = pts + bit(session, 0x8000_0000_0000_0000) + bit(
                is_config,
                0x4000_0000_0000_0000,
            ) + bit(is_key, 0x2000_0000_0000_0000);
            packet_header_in(wire::be64(word as u64) + wire::be32(size)) == (PacketHeader {
                is_config,
                is_key,
                size,
            })
        }),
{
    let bit = |set: bool, value: int|
        if set {
            value
        } else {
            0
        };
    let word = pts + bit(session, 0x8000_0000_0000_0000) + bit(is_config, 0x4000_0000_0000_0000)
        + bit(is_key, 0x2000_0000_0000_0000);
    let header = wire::be64(word as u64) + wire::be32(size);
    let none = Seq::<u8>::empty();
    wire::law_be64_reads_back(word as u64, none, wire::be32(size));
    assert(none + wire::be64(word as u64) + wire::be32(size) =~= header);
    wire::law_be32_reads_back(size, wire::be64(word as u64), none);
    assert(wire::be64(word as u64) + wire::be32(size) + none =~= header);
}

/// The handshake that a server writes: a byte that says nothing, the name padded with
/// zeros to sixty-four bytes, the codec, some flags and the size.
pub open spec fn handshake_bytes(
    dummy: u8,
    name: Seq<u8>,
    codec: u32,
    flags: u32,
    width: u32,
    height: u32,
) -> Seq<u8> {
    seq![dummy] + name + Seq::new((64 - name.len()) as nat, |i: int| 0u8) + wire::be32(codec)
        + wire::be32(flags) + wire::be32(width) + wire::be32(height)
}

proof fn lemma_before_nul(name: Seq<u8>, rest: Seq<u8>)
    requires
        forall|i: int| 0 <= i < name.len() ==> #[trigger] name[i] != 0,
        rest.len() == 0 || rest[0] == 0,
    ensures
        before_nul(name + rest) == name.len(),
    decreases name.len(),
{
    let whole = name + rest;
    if name.len() > 0 {
        assert(whole[0] == name[0]);
        let shorter = name.drop_first();
        assert forall|i: int| 0 <= i < shorter.len() implies #[trigger] shorter[i] != 0 by {
            assert(name[i + 1] != 0);
        }
        assert(whole.drop_first() =~= shorter + rest);
        lemma_before_nul(shorter, rest);
    } else {
        assert(whole =~= rest);
    }
}

/// What a server says of itself is read as it wrote it, once all of it has arrived and
/// not before. A codec other than H.264 is refused as soon as it is known, before the
/// size has arrived.
pub proof fn law_a_handshake_reads_back(
    dummy: u8,
    name: Seq<u8>,
    codec: u32,
    flags: u32,
    width: u32,
    height: u32,
    arrived: int,
)
    requires
        name.len() <= 64,
        forall|i: int| 0 <= i < name.len() ==> #[trigger] name[i] != 0,
        0 <= arrived <= 81,
    ensures
        ({
            let whole = handshake_bytes(dummy, name, codec, flags, width, height);
            &&& whole.len() == 81
            &&& handshake_in(whole.take(arrived)) == if arrived < 69 {
                Ok(None)
            } else if codec != 0x68323634 {
                Err(codec)
            } else if arrived < 81 {
                Ok(None)
            } else {
                Ok(Some((text::utf8_lossy(name), width as i64, height as i64)))
            }
        }),
{
    let whole = handshake_bytes(dummy, name, codec, flags, width, height);
    let zeros = Seq::new((64 - name.len()) as nat, |i: int| 0u8);
    let padded = name + zeros;
    let start = seq![dummy] + padded;
    let (c, f) = (wire::be32(codec), wire::be32(flags));
    let (w, h) = (wire::be32(width), wire::be32(height));
    let none = Seq::<u8>::empty();
    assert(whole =~= start + c + (f + w + h));
    assert(whole =~= (start + c + f) + w + h);
    assert(whole =~= (start + c + f + w) + h + none);
    wire::law_be32_reads_back(codec, start, f + w + h);
    wire::law_be32_reads_back(width, start + c + f, h);
    wire::law_be32_reads_back(height, start + c + f + w, none);
    lemma_before_nul(name, zeros);
    let cut = whole.take(arrived);
    if arrived >= 69 {
        assert(wire::be32_at(cut, 65) == wire::be32_at(whole, 65));
    }
    if arrived == 81 {
        assert(cut =~= whole);
        assert(whole.subrange(1, 65) =~= padded);
        assert(padded.take(name.len() as int) =~= name);
    }
}

/// What a packet tells the viewers.
pub enum PumpEvent {
    Codec(CodecDescription),
    Unit(AccessUnit),
}

/// What a packet tells the viewers.
pub enum PumpEventView {
    Codec((Seq<char>, Seq<u8>)),
    Unit { data: Seq<u8>, is_key: bool },
}

impl View for PumpEvent {
    type V = PumpEventView;

    open spec fn view(&self) -> PumpEventView {
        match *self {
            PumpEvent::Codec(codec) => PumpEventView::Codec(codec@),
            PumpEvent::Unit(unit) => PumpEventView::Unit { data: unit.data@, is_key: unit.is_key },
        }
    }
}

/// The codec that a config packet describes, where it carries both parameter
/// sets and the sequence parameter set is long enough to describe one.
pub open spec fn described_by(config: Seq<u8>) -> Option<(Seq<char>, Seq<u8>)> {
    match h264::sets_in(config) {
        Some((sps, pps)) => if sps.len() >= 4 {
            Some((h264::codec_text(sps), h264::avcc_record(sps, pps)))
        } else {
            None
        },
        None => None,
    }
}

/// What was announced to viewers, and the event, after one packet. A config
/// packet is never forwarded as a frame, and is announced only where it changed;
/// nothing is forwarded before a codec was announced.
pub open spec fn pumped(
    announced: Option<(Seq<char>, Seq<u8>)>,
    is_config: bool,
    is_key: bool,
    payload: Seq<u8>,
) -> (Option<(Seq<char>, Seq<u8>)>, Option<PumpEventView>) {
    if is_config {
        match described_by(payload) {
            Some(next) => if announced != Some(next) {
                (Some(next), Some(PumpEventView::Codec(next)))
            } else {
                (announced, None)
            },
            None => (announced, None),
        }
    } else if announced is None {
        (announced, None)
    } else {
        (
            announced,
            Some(
                PumpEventView::Unit { data: video::packed(h264::units_from(payload, 0)), is_key },
            ),
        )
    }
}

/// Turns the packets of the video socket into what viewers get.
pub struct VideoPump {
    announced: Option<CodecDescription>,
}

impl View for VideoPump {
    /// What was last announced to viewers.
    type V = Option<(Seq<char>, Seq<u8>)>;

    closed spec fn view(&self) -> Option<(Seq<char>, Seq<u8>)> {
        video::codec_in(self.announced)
    }
}

/// An event that may not have come.
pub open spec fn event_in(event: Option<PumpEvent>) -> Option<PumpEventView> {
    match event {
        Some(event) => Some(event@),
        None => None,
    }
}

impl VideoPump {
    pub fn new() -> (pump: Self)
        ensures
            pump@ is None,
    {
        VideoPump { announced: None }
    }

    /// Take one packet of the video socket.
    pub fn pump_video(&mut self, is_config: bool, is_key: bool, payload: &[u8]) -> (event: Option<
        PumpEvent,
    >)
        ensures
            final(self)@ == pumped(old(self)@, is_config, is_key, payload@).0,
            event_in(event) == pumped(old(self)@, is_config, is_key, payload@).1,
    {
        if is_config {
            let sets = match h264::ParameterSets::parse(payload) {
                Some(sets) => sets,
                None => {
                    return None;
                },
            };
            match (sets.codec_string(), sets.avcc()) {
                (Some(codec), Some(description)) => {
                    let next = CodecDescription { codec, description };
                    // The server repeats the config packet before every
                    // keyframe; announcing it again would make every viewer
                    // rebuild its decoder several times a second.
                    let changed = match &self.announced {
                        Some(last) => !last.same_as(&next),
                        None => true,
                    };
                    if changed {
                        let copy = next.copy();
                        self.announced = Some(next);
                        return Some(PumpEvent::Codec(copy));
                    }
                    None
                },
                _ => None,
            }
        } else if self.announced.is_none() {
            // Nothing can decode this yet, and a viewer that received it would
            // be decoding against parameter sets it never got.
            None
        } else {
            Some(PumpEvent::Unit(AccessUnit { data: h264::to_length_prefixed(payload), is_key }))
        }
    }
}

/// Viewers hear of a codec before they get a frame, never get a config packet as
/// one, and hear of the same codec only once in a row.
pub proof fn law_frames_follow_their_codec(
    announced: Option<(Seq<char>, Seq<u8>)>,
    is_config: bool,
    is_key: bool,
    payload: Seq<u8>,
)
    ensures
        ({
            let (after, event) = pumped(announced, is_config, is_key, payload);
            &&& event matches Some(PumpEventView::Unit { .. }) ==> announced is Some && !is_config
                && after == announced
            &&& event matches Some(PumpEventView::Codec(codec)) ==> announced != Some(codec)
                && after == Some(codec)
            &&& event is None ==> after == announced
            &&& is_config ==> pumped(after, is_config, is_key, payload).1 is None
        }),
{
}

/// The message that asks the encoder for a fresh IDR: the server tears the
/// encoder down and starts a new one, which sends the config packet and an IDR
/// again.
pub fn request_keyframe() -> (message: Vec<u8>)
    ensures
        message@ == seq![control_message::RESET_VIDEO],
{
    let mut message: Vec<u8> = Vec::new();
    message.push(control_message::RESET_VIDEO);
    assert(message@ =~= seq![control_message::RESET_VIDEO]);
    message
}

/// The bits of a signed number.
pub open spec fn bits_of(x: i32) -> u32 {
    if x < 0 {
        (x + 0x1_0000_0000) as u32
    } else {
        x as u32
    }
}

fn to_bits(x: i32) -> (bits: u32)
    ensures
        bits == bits_of(x),
{
    if x < 0 {
        (x as i64 + 0x1_0000_0000) as u32
    } else {
        x as u32
    }
}

fn low_16(x: i64) -> (low: u16)
    ensures
        low == x % 0x1_0000,
{
    if x >= 0 {
        (x as u64 % 0x1_0000) as u16
    } else {
        let below: u64 = (-(x + 1)) as u64;
        (0xFFFF - below % 0x1_0000) as u16
    }
}

/// A touch event, as the server parses it: 32 bytes, with no pressure on a
/// release and full pressure otherwise, and no mouse buttons.
pub open spec fn touch_message(
    action: u8,
    pointer_id: u64,
    x: i32,
    y: i32,
    width: i64,
    height: i64,
) -> Seq<u8> {
    seq![control_message::INJECT_TOUCH_EVENT, action] + wire::be64(pointer_id) + wire::be32(
        bits_of(x),
    ) + wire::be32(bits_of(y)) + wire::be16((width % 0x1_0000) as u16) + wire::be16(
        (height % 0x1_0000) as u16,
    ) + wire::be16(
        if action == touch_action::UP {
            0
        } else {
            PRESSURE_MAX
        },
    ) + wire::be32(0) + wire::be32(0)
}

/// Encode a touch event.
///
/// Coordinates are pixels of the geometry that the server reported, not of the
/// panel. They differ whenever the stream is scaled down, and using the panel's
/// would put every touch in the wrong place.
pub fn touch(action: u8, pointer_id: u64, x: i32, y: i32, width: i64, height: i64) -> (message: Vec<
    u8,
>)
    ensures
        message@ == touch_message(action, pointer_id, x, y, width, height),
        message@.len() == 32,
{
    let mut message: Vec<u8> = Vec::new();
    message.push(control_message::INJECT_TOUCH_EVENT);
    message.push(action);
    wire::push_be64(&mut message, pointer_id);
    wire::push_be32(&mut message, to_bits(x));
    wire::push_be32(&mut message, to_bits(y));
    wire::push_be16(&mut message, low_16(width));
    wire::push_be16(&mut message, low_16(height));
    let pressure: u16 = if action == touch_action::UP {
        0
    } else {
        PRESSURE_MAX
    };
    wire::push_be16(&mut message, pressure);
    // action_button and buttons: 0 for a finger, which is what a touchscreen
    // reports. Setting a mouse button here makes long-press behave as a
    // right-click on devices that honour it.
    wire::push_be32(&mut message, 0);
    wire::push_be32(&mut message, 0);
    assert(message@ =~= touch_message(action, pointer_id, x, y, width, height));
    message
}

/// Encode a keycode press or release. `code` is an Android `KEYCODE_*`.
pub fn keycode(action: u8, code: u32) -> (message: Vec<u8>)
    ensures
        message@ == seq![control_message::INJECT_KEYCODE, action] + wire::be32(code)
            + wire::be32(0) + wire::be32(0),
{
    let mut message: Vec<u8> = Vec::new();
    message.push(control_message::INJECT_KEYCODE);
    message.push(action);
    wire::push_be32(&mut message, code);
    wire::push_be32(&mut message, 0);  // repeat
    wire::push_be32(&mut message, 0);  // metaState
    assert(message@ =~= seq![control_message::INJECT_KEYCODE, action] + wire::be32(code)
        + wire::be32(0) + wire::be32(0));
    message
}

/// A text behind its length in bytes.
pub open spec fn sized_text(text: Seq<char>) -> Seq<u8> {
    let bytes = vstd::utf8::encode_utf8(text);
    wire::be32((bytes.len() % 0x1_0000_0000) as u32) + bytes
}

fn push_sized_text(message: &mut Vec<u8>, text: &str)
    ensures
        final(message)@ == old(message)@ + sized_text(text@),
{
    let bytes = text.as_bytes();
    wire::push_be32(message, (bytes.len() as u64 % 0x1_0000_0000) as u32);
    wire::append(message, bytes);
    assert(message@ =~= old(message)@ + sized_text(text@));
}

/// Encode text to be typed.
pub fn text(typed: &str) -> (message: Vec<u8>)
    ensures
        message@ == seq![control_message::INJECT_TEXT] + sized_text(typed@),
{
    let mut message: Vec<u8> = Vec::new();
    message.push(control_message::INJECT_TEXT);
    push_sized_text(&mut message, typed);
    assert(message@ =~= seq![control_message::INJECT_TEXT] + sized_text(typed@));
    message
}

/// Encode a clipboard write.
pub fn set_clipboard(sequence: u64, text: &str, paste: bool) -> (message: Vec<u8>)
    ensures
        message@ == seq![control_message::SET_CLIPBOARD] + wire::be64(sequence) + seq![
            if paste {
                1u8
            } else {
                0u8
            },
        ] + sized_text(text@),
{
    let mut message: Vec<u8> = Vec::new();
    message.push(control_message::SET_CLIPBOARD);
    wire::push_be64(&mut message, sequence);
    message.push(
        if paste {
            1
        } else {
            0
        },
    );
    push_sized_text(&mut message, text);
    assert(message@ =~= seq![control_message::SET_CLIPBOARD] + wire::be64(sequence) + seq![
        if paste {
            1u8
        } else {
            0u8
        },
    ] + sized_text(text@));
    message
}

/// Encode a clipboard read. The copy key is zero: what is already there is read,
/// rather than the focused app asked to copy first.
pub fn get_clipboard() -> (message: Vec<u8>)
    ensures
        message@ == seq![control_message::GET_CLIPBOARD, 0u8],
{
    let mut message: Vec<u8> = Vec::new();
    message.push(control_message::GET_CLIPBOARD);
    message.push(0);
    assert(message@ =~= seq![control_message::GET_CLIPBOARD, 0u8]);
    message
}

pub fn rotate_device() -> (message: Vec<u8>)
    ensures
        message@ == seq![control_message::ROTATE_DEVICE],
{
    let mut message: Vec<u8> = Vec::new();
    message.push(control_message::ROTATE_DEVICE);
    assert(message@ =~= seq![control_message::ROTATE_DEVICE]);
    message
}

pub fn back_or_screen_on(action: u8) -> (message: Vec<u8>)
    ensures
        message@ == seq![control_message::BACK_OR_SCREEN_ON, action],
{
    let mut message: Vec<u8> = Vec::new();
    message.push(control_message::BACK_OR_SCREEN_ON);
    message.push(action);
    assert(message@ =~= seq![control_message::BACK_OR_SCREEN_ON, action]);
    message
}

/// The device message at the start of `input`: the text of the clipboard, where
/// it is that, and how many bytes it takes. Nothing where it is not all there
/// yet; the type where it is not known, since the length cannot be told then.
pub open spec fn device_message_in(input: Seq<u8>) -> Result<
    Option<(Option<Seq<char>>, int)>,
    u8,
> {
    if input.len() < 1 {
        Ok(None)
    } else if input[0] == device_message::CLIPBOARD {
        if input.len() < 5 || input.len() < 5 + wire::be32_at(input, 1) {
            Ok(None)
        } else {
            let end = 5 + wire::be32_at(input, 1);
            Ok(Some((Some(text::utf8_lossy(input.subrange(5, end))), end)))
        }
    } else if input[0] == device_message::ACK_CLIPBOARD {
        if input.len() < 9 {
            Ok(None)
        } else {
            Ok(Some((None, 9)))
        }
    } else {
        Err(input[0])
    }
}

/// Read one device message, returning clipboard text when that is what it was.
pub fn read_device_message(input: &[u8]) -> (message: Result<Option<(Option<String>, usize)>, u8>)
    ensures
        match message {
            Ok(Some((clipboard, used))) => device_message_in(input@) == Ok::<_, u8>(
                Some((text::text_in(clipboard), used as int)),
            ),
            Ok(None) => device_message_in(input@) == Ok::<
                Option<(Option<Seq<char>>, int)>,
                u8,
            >(None),
            Err(kind) => device_message_in(input@) == Err::<
                Option<(Option<Seq<char>>, int)>,
                u8,
            >(kind),
        },
{
    if input.len() < 1 {
        return Ok(None);
    }
    if input[0] == device_message::CLIPBOARD {
        if input.len() < 5 {
            return Ok(None);
        }
        let length: u64 = wire::read_be32(input, 1) as u64;
        if (input.len() - 5) as u64 >= length {
            let end: usize = 5 + length as usize;
            Ok(Some((Some(text::lossy_text(&input[5..end])), end)))
        } else {
            Ok(None)
        }
    } else if input[0] == device_message::ACK_CLIPBOARD {
        if input.len() < 9 {
            return Ok(None);
        }
        Ok(Some((None, 9)))
    } else {
        Err(input[0])
    }
}

/// The numbers that the server and the system give their messages and actions.
pub proof fn law_messages_have_the_servers_numbers()
    ensures
        control_message::INJECT_KEYCODE == 0,
        control_message::INJECT_TEXT == 1,
        control_message::INJECT_TOUCH_EVENT == 2,
        control_message::BACK_OR_SCREEN_ON == 4,
        control_message::GET_CLIPBOARD == 8,
        control_message::SET_CLIPBOARD == 9,
        control_message::ROTATE_DEVICE == 11,
        control_message::RESET_VIDEO == 17,
        device_message::CLIPBOARD == 0,
        device_message::ACK_CLIPBOARD == 1,
        touch_action::DOWN == 0,
        touch_action::UP == 1,
        touch_action::MOVE == 2,
{
}

/// A touch says what was touched and where: every field reads back from its place in
/// the message, most significant byte first. A finger that is lifted presses with
/// nothing and any other with all it has, and there is never a mouse button.
pub proof fn law_a_touch_reads_back(
    action: u8,
    pointer_id: u64,
    x: i32,
    y: i32,
    width: i64,
    height: i64,
)
    requires
        0 <= width < 0x1_0000,
        0 <= height < 0x1_0000,
    ensures
        ({
            let message = touch_message(action, pointer_id, x, y, width, height);
            &&& message.len() == 32
            &&& message[0] == 2
            &&& message[1] == action
            &&& wire::be64_at(message, 2) == pointer_id
            &&& (wire::be32_at(message, 10) - x) % 0x1_0000_0000 == 0
            &&& (wire::be32_at(message, 14) - y) % 0x1_0000_0000 == 0
            &&& wire::be16_at(message, 18) == width
            &&& wire::be16_at(message, 20) == height
            &&& wire::be16_at(message, 22) == (if action == 1 {
                0
            } else {
                0xFFFFint
            })
            &&& wire::be32_at(message, 24) == 0
            &&& wire::be32_at(message, 28) == 0
        }),
{
    let message = touch_message(action, pointer_id, x, y, width, height);
    let pressure: u16 = if action == touch_action::UP {
        0
    } else {
        PRESSURE_MAX
    };
    let p0 = seq![control_message::INJECT_TOUCH_EVENT, action];
    let id = wire::be64(pointer_id);
    let (bx, by) = (wire::be32(bits_of(x)), wire::be32(bits_of(y)));
    let (w, h) = (wire::be16(width as u16), wire::be16(height as u16));
    let p = wire::be16(pressure);
    let zero = wire::be32(0);
    let none = Seq::<u8>::empty();
    assert(message == p0 + id + bx + by + w + h + p + zero + zero);
    lemma_regrouped(p0, id, bx, by, w, h, p, zero, zero);
    wire::law_be64_reads_back(pointer_id, p0, bx + by + w + h + p + zero + zero);
    wire::law_be32_reads_back(bits_of(x), p0 + id, by + w + h + p + zero + zero);
    wire::law_be32_reads_back(bits_of(y), p0 + id + bx, w + h + p + zero + zero);
    wire::law_be16_reads_back(width as u16, p0 + id + bx + by, h + p + zero + zero);
    wire::law_be16_reads_back(height as u16, p0 + id + bx + by + w, p + zero + zero);
    wire::law_be16_reads_back(pressure, p0 + id + bx + by + w + h, zero + zero);
    wire::law_be32_reads_back(0, p0 + id + bx + by + w + h + p, zero);
    wire::law_be32_reads_back(0, p0 + id + bx + by + w + h + p + zero, none);
}

proof fn lemma_regrouped(
    a: Seq<u8>,
    b: Seq<u8>,
    c: Seq<u8>,
    d: Seq<u8>,
    e: Seq<u8>,
    f: Seq<u8>,
    g: Seq<u8>,
    h: Seq<u8>,
    i: Seq<u8>,
)
    ensures
        a + b + c + d + e + f + g + h + i == a + b + (c + d + e + f + g + h + i),
        a + b + c + d + e + f + g + h + i == (a + b) + c + (d + e + f + g + h + i),
        a + b + c + d + e + f + g + h + i == (a + b + c) + d + (e + f + g + h + i),
        a + b + c + d + e + f + g + h + i == (a + b + c + d) + e + (f + g + h + i),
        a + b + c + d + e + f + g + h + i == (a + b + c + d + e) + f + (g + h + i),
        a + b + c + d + e + f + g + h + i == (a + b + c + d + e + f) + g + (h + i),
        a + b + c + d + e + f + g + h + i == (a + b + c + d + e + f + g + h) + i + Seq::empty(),
{
    let all = a + b + c + d + e + f + g + h + i;
    assert(all =~= a + b + (c + d + e + f + g + h + i));
    assert(all =~= (a + b) + c + (d + e + f + g + h + i));
    assert(all =~= (a + b + c) + d + (e + f + g + h + i));
    assert(all =~= (a + b + c + d) + e + (f + g + h + i));
    assert(all =~= (a + b + c + d + e) + f + (g + h + i));
    assert(all =~= (a + b + c + d + e + f) + g + (h + i));
    assert(all =~= (a + b + c + d + e + f + g + h) + i + Seq::<u8>::empty());
}

/// A text behind its length reads back from it.
pub proof fn law_a_sized_text_reads_back(typed: Seq<char>, rest: Seq<u8>)
    requires
        vstd::utf8::encode_utf8(typed).len() <= u32::MAX,
    ensures
        ({
            let message = sized_text(typed) + rest;
            let length = wire::be32_at(message, 0);
            &&& length == vstd::utf8::encode_utf8(typed).len()
            &&& message.subrange(4, 4 + length) == vstd::utf8::encode_utf8(typed)
            &&& message.skip(4 + length) == rest
        }),
{
    let bytes = vstd::utf8::encode_utf8(typed);
    let prefix = wire::be32(bytes.len() as u32);
    let message = sized_text(typed) + rest;
    let none = Seq::<u8>::empty();
    assert(message =~= none + prefix + (bytes + rest));
    wire::law_be32_reads_back(bytes.len() as u32, none, bytes + rest);
    assert(message.subrange(4, (4 + bytes.len()) as int) =~= bytes);
    assert(message.skip((4 + bytes.len()) as int) =~= rest);
}

/// What the device copied is read as it sent it, once all of it has arrived and not
/// before, and takes just its own bytes; an acknowledgement takes its nine and holds
/// no text.
pub proof fn law_a_clipboard_reads_back(copied: Seq<u8>, sequence: Seq<u8>, rest: Seq<u8>, n: int)
    requires
        copied.len() <= u32::MAX,
        sequence.len() == 8,
        0 <= n < 5 + copied.len(),
    ensures
        ({
            let message = seq![0u8] + wire::be32(copied.len() as u32) + copied;
            let acknowledged = seq![1u8] + sequence + rest;
            &&& device_message_in(message + rest) == Ok::<_, u8>(
                Some((Some(text::utf8_lossy(copied)), message.len() as int)),
            )
            &&& device_message_in(message.take(n)) == Ok::<
                Option<(Option<Seq<char>>, int)>,
                u8,
            >(None)
            &&& device_message_in(acknowledged) == Ok::<_, u8>(
                Some((None::<Seq<char>>, 9int)),
            )
        }),
{
    let prefix = wire::be32(copied.len() as u32);
    let message = seq![0u8] + prefix + copied;
    let whole = message + rest;
    assert(whole =~= seq![0u8] + prefix + (copied + rest));
    wire::law_be32_reads_back(copied.len() as u32, seq![0u8], copied + rest);
    assert(whole.subrange(5, (5 + copied.len()) as int) =~= copied);
    let cut = message.take(n);
    wire::law_be32_reads_back(copied.len() as u32, seq![0u8], copied);
    if n >= 5 {
        assert(wire::be32_at(cut, 1) == wire::be32_at(message, 1));
    }
}

/// Once a codec was announced every frame is passed on: it holds the NAL units that
/// the encoder wrote, in order, and is a key one exactly where the server said so.
pub proof fn law_a_frame_is_passed_on(
    announced: (Seq<char>, Seq<u8>),
    is_key: bool,
    nals: Seq<Seq<u8>>,
    long: Seq<bool>,
)
    requires
        long.len() == nals.len(),
        forall|i: int| 0 <= i < nals.len() ==> h264::is_unit(#[trigger] nals[i]),
        h264::ends_are_clear(nals, long),
        forall|i: int| 0 <= i < nals.len() ==> (#[trigger] nals[i]).len() <= u32::MAX,
    ensures
        match pumped(Some(announced), false, is_key, h264::annex_b(nals, long)) {
            (after, Some(PumpEventView::Unit { data, is_key: key })) => {
                &&& after == Some(announced)
                &&& video::unpacked(data, 0) == nals
                &&& key == is_key
            },
            _ => false,
        },
{
    h264::law_annex_b_splits_into_its_units(nals, long);
    video::law_packed_unit_unpacks(nals);
}

/// A packet with both parameter sets announces a codec, unless it is the one that was
/// announced last: its record holds the two sets, each behind its length.
pub proof fn law_a_new_codec_is_announced(
    announced: Option<(Seq<char>, Seq<u8>)>,
    is_key: bool,
    sps: Seq<u8>,
    pps: Seq<u8>,
    long: Seq<bool>,
)
    requires
        long.len() == 2,
        h264::is_unit(sps) && h264::is_unit(pps),
        h264::ends_are_clear(seq![sps, pps], long),
        4 <= sps.len() < 0x1_0000,
        pps.len() < 0x1_0000,
        sps[0] % 32 == 7,
        pps[0] % 32 == 8,
    ensures
        ({
            let config = h264::annex_b(seq![sps, pps], long);
            match pumped(announced, true, is_key, config) {
                (Some((codec, record)), event) => {
                    &&& announced != Some((codec, record)) ==> event == Some(
                        PumpEventView::Codec((codec, record)),
                    )
                    &&& announced == Some((codec, record)) ==> event is None
                    &&& h264::record_holds(record, sps, pps)
                },
                _ => false,
            }
        }),
{
    let nals = seq![sps, pps];
    let config = h264::annex_b(nals, long);
    assert forall|i: int| 0 <= i < nals.len() implies h264::is_unit(#[trigger] nals[i]) by {}
    h264::law_annex_b_splits_into_its_units(nals, long);
    h264::lemma_last_of_two(sps, pps);
    h264::law_a_record_holds_its_sets(sps, pps);
}

/// The server is started with what it was asked for, each under its own name, and goes
/// by its session's number in eight hexadecimal digits.
pub proof fn law_a_server_is_started_as_asked(scid: u32, options: ScrcpyOptions)
    ensures
        ({
            let command = server_command_text(scid, options);
            &&& text::contains_text(command, " scid="@ + text::hex(scid as nat, 8, false) + " "@)
            &&& text::contains_text(
                command,
                " max_size="@ + text::decimal(options.max_size as nat) + " "@,
            )
            &&& text::contains_text(
                command,
                " video_bit_rate="@ + text::decimal(options.bit_rate as nat) + " "@,
            )
            &&& text::contains_text(
                command,
                " max_fps="@ + text::decimal(options.max_fps as nat) + " "@,
            )
        }),
{
    reveal_strlit(
        "CLASSPATH=/data/local/tmp/farm-scrcpy-server.jar app_process / com.genymobile.scrcpy.Server 4.1 scid=",
    );
    reveal_strlit(
        " log_level=info video=true audio=false control=true tunnel_forward=true video_codec=h264 max_size=",
    );
    reveal_strlit(" scid=");
    reveal_strlit(" max_size=");
    reveal_strlit(" video_bit_rate=");
    reveal_strlit(" max_fps=");
    reveal_strlit(" cleanup=true");
    reveal_strlit(" ");
    let id = text::hex(scid as nat, 8, false);
    let size = text::decimal(options.max_size as nat);
    let rate = text::decimal(options.bit_rate as nat);
    let fps = text::decimal(options.max_fps as nat);
    let start = "CLASSPATH=/data/local/tmp/farm-scrcpy-server.jar app_process / com.genymobile.scrcpy.Server 4.1 scid="@;
    let fixed = " log_level=info video=true audio=false control=true tunnel_forward=true video_codec=h264 max_size="@;
    let command = server_command_text(scid, options);
    let a = start.take(start.len() - 6);
    assert(a + " scid="@ =~= start);
    let b = fixed.take(fixed.len() - 10);
    assert(b + " max_size="@ =~= fixed);
    let tail = " video_bit_rate="@ + rate + " max_fps="@ + fps + " cleanup=true"@;
    assert(command =~= a + (" scid="@ + id + " "@) + (fixed.drop_first() + size + tail));
    text::law_a_text_holds_what_stands_in_it(
        a,
        " scid="@ + id + " "@,
        fixed.drop_first() + size + tail,
    );
    assert(command =~= (start + id + b) + (" max_size="@ + size + " "@) + tail.drop_first());
    text::law_a_text_holds_what_stands_in_it(
        start + id + b,
        " max_size="@ + size + " "@,
        tail.drop_first(),
    );
    let rest = " max_fps="@ + fps + " cleanup=true"@;
    assert(command =~= (start + id + fixed + size) + (" video_bit_rate="@ + rate + " "@)
        + rest.drop_first());
    text::law_a_text_holds_what_stands_in_it(
        start + id + fixed + size,
        " video_bit_rate="@ + rate + " "@,
        rest.drop_first(),
    );
    let end = " cleanup=true"@;
    assert(command =~= (start + id + fixed + size + " video_bit_rate="@ + rate) + (" max_fps="@
        + fps + " "@) + end.drop_first());
    text::law_a_text_holds_what_stands_in_it(
        start + id + fixed + size + " video_bit_rate="@ + rate,
        " max_fps="@ + fps + " "@,
        end.drop_first(),
    );
}

} // verus!
