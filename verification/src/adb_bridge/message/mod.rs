//! ADB's wire framing.
//!
//! Every message is a 24-byte header of six little-endian `u32` (command, two
//! arguments, payload length, payload checksum, and the command's own ones'
//! complement), optionally followed by that many payload bytes.

use crate::text;
use crate::wire;
use bytes::Bytes;
use vstd::prelude::*;
use vstd::string::*;

pub mod auth;

verus! {

pub const HEADER_LEN: usize = 24;

/// The largest payload we accept or send, and what we advertise in `CNXN`.
///
/// A client may propose more; we take the smaller of the two. It also bounds
/// what a single header can make us allocate, which matters because anyone who
/// can reach the port can send one.
pub const MAX_PAYLOAD: u32 = 256 * 1024;

/// The protocol version we speak.
///
/// Deliberately the older of the two: `0x01000001` adds delayed
/// acknowledgements, and every stream here is bounded by an adb server
/// connection anyway. Clients negotiate down without complaint.
pub const VERSION: u32 = 0x0100_0000;

#[derive(Debug, Clone, Copy, PartialEq, Eq, Structural)]
pub enum Command {
    /// Connection banner, both directions.
    Cnxn,
    /// Authentication: token, signature, or public key.
    Auth,
    /// Open a stream to a service.
    Open,
    /// Ready for more on a stream. Also the answer that a stream opened.
    Okay,
    /// Close a stream.
    Clse,
    /// Stream payload.
    Wrte,
    /// TLS upgrade, which we never offer.
    Stls,
    /// Legacy, never sent.
    Sync,
}

impl Command {
    /// The four letters of a command as a little-endian number.
    pub open spec fn number(self) -> u32 {
        match self {
            Command::Sync => 0x434e_5953,
            Command::Cnxn => 0x4e58_4e43,
            Command::Open => 0x4e45_504f,
            Command::Okay => 0x5941_4b4f,
            Command::Clse => 0x4553_4c43,
            Command::Wrte => 0x4554_5257,
            Command::Auth => 0x4854_5541,
            Command::Stls => 0x534c_5453,
        }
    }

    pub fn code(self) -> (code: u32)
        ensures
            code == self.number(),
    {
        match self {
            Command::Sync => 0x434e_5953,
            Command::Cnxn => 0x4e58_4e43,
            Command::Open => 0x4e45_504f,
            Command::Okay => 0x5941_4b4f,
            Command::Clse => 0x4553_4c43,
            Command::Wrte => 0x4554_5257,
            Command::Auth => 0x4854_5541,
            Command::Stls => 0x534c_5453,
        }
    }

    /// The command with this code, if there is one.
    pub fn from_code(code: u32) -> (command: Option<Self>)
        ensures
            match command {
                Some(command) => command.number() == code,
                None => forall|other: Command| #[trigger] other.number() != code,
            },
    {
        match code {
            0x434e_5953 => Some(Command::Sync),
            0x4e58_4e43 => Some(Command::Cnxn),
            0x4e45_504f => Some(Command::Open),
            0x5941_4b4f => Some(Command::Okay),
            0x4553_4c43 => Some(Command::Clse),
            0x4554_5257 => Some(Command::Wrte),
            0x4854_5541 => Some(Command::Auth),
            0x534c_5453 => Some(Command::Stls),
            _ => None,
        }
    }
}

/// Two commands with one code are the same command, so that reading a code
/// gives back the command that it was written for.
pub proof fn law_codes_are_distinct(a: Command, b: Command)
    requires
        a.number() == b.number(),
    ensures
        a == b,
{
}

/// `bytes::Bytes`, a byte string that is cheap to hand on.
#[verifier::external_type_specification]
#[verifier::external_body]
pub struct ExBytes(bytes::Bytes);

/// The bytes of a byte string.
pub uninterp spec fn bytes_held(bytes: bytes::Bytes) -> Seq<u8>;

/// `Bytes::from(Vec<u8>)` holds the bytes of the vector.
#[verifier::external_body]
pub(crate) fn bytes_from(bytes: Vec<u8>) -> (held: Bytes)
    ensures
        bytes_held(held) == bytes@,
{
    Bytes::from(bytes)
}

/// `Bytes::as_ref` gives the bytes that are held.
#[verifier::external_body]
pub(crate) fn bytes_slice(bytes: &Bytes) -> (slice: &[u8])
    ensures
        slice@ == bytes_held(*bytes),
{
    bytes.as_ref()
}

/// `Bytes::clone` holds the same bytes.
pub assume_specification[ <Bytes as Clone>::clone ](bytes: &Bytes) -> (copy: Bytes)
    ensures
        bytes_held(copy) == bytes_held(*bytes),
;

#[derive(Debug, Clone, PartialEq, Eq)]
pub struct Message {
    pub command: Command,
    pub arg0: u32,
    pub arg1: u32,
    pub payload: Bytes,
}

/// What a message says.
#[verifier::ext_equal]
pub struct MessageView {
    pub command: Command,
    pub arg0: u32,
    pub arg1: u32,
    pub payload: Seq<u8>,
}

impl View for Message {
    type V = MessageView;

    open spec fn view(&self) -> MessageView {
        MessageView {
            command: self.command,
            arg0: self.arg0,
            arg1: self.arg1,
            payload: bytes_held(self.payload),
        }
    }
}

/// Why bytes are no message.
#[derive(Debug, Clone, Copy, PartialEq, Eq, Structural)]
pub enum FrameError {
    UnknownCommand(u32),
    BadMagic,
    PayloadTooLarge(u32),
}

impl FrameError {
    pub open spec fn text(self) -> Seq<char> {
        match self {
            FrameError::UnknownCommand(code) => "unknown adb command 0x"@ + text::hex(
                code as nat,
                8,
                false,
            ),
            FrameError::BadMagic => "adb header magic does not match its command"@,
            FrameError::PayloadTooLarge(length) => "adb payload of "@ + text::decimal(length as nat)
                + " bytes exceeds the 262144-byte maximum"@,
        }
    }

    /// The error in words.
    pub fn message(&self) -> (message: String)
        ensures
            message@ == self.text(),
    {
        let mut out = String::new();
        match self {
            FrameError::UnknownCommand(code) => {
                out.append("unknown adb command 0x");
                text::push_hex(&mut out, *code as u64, 8, false);
            },
            FrameError::BadMagic => {
                out.append("adb header magic does not match its command");
            },
            FrameError::PayloadTooLarge(length) => {
                out.append("adb payload of ");
                text::push_decimal(&mut out, *length as u64);
                out.append(" bytes exceeds the 262144-byte maximum");
            },
        }
        assert(out@ =~= self.text());
        out
    }
}

/// A message's header, without what can be told from the payload.
#[derive(Debug, Clone, Copy, PartialEq, Eq, Structural)]
pub struct Header {
    pub command: Command,
    pub arg0: u32,
    pub arg1: u32,
    /// How many payload bytes follow.
    pub length: u32,
}

/// The sum of a payload's bytes.
pub open spec fn byte_sum(payload: Seq<u8>) -> int
    decreases payload.len(),
{
    if payload.len() == 0 {
        0
    } else {
        byte_sum(payload.drop_last()) + payload.last()
    }
}

/// Six little-endian numbers, one after the other.
#[verifier::opaque]
pub open spec fn six_words(a: u32, b: u32, c: u32, d: u32, e: u32, f: u32) -> Seq<u8> {
    wire::le32(a) + wire::le32(b) + wire::le32(c) + wire::le32(d) + wire::le32(e) + wire::le32(f)
}

impl MessageView {
    /// A message's bytes on the wire, with this checksum.
    pub open spec fn encoded_with(self, sum: u32) -> Seq<u8> {
        let code = self.command.number();
        six_words(
            code,
            self.arg0,
            self.arg1,
            (self.payload.len() % 0x1_0000_0000) as u32,
            sum,
            (u32::MAX - code) as u32,
        ) + self.payload
    }

    /// A message's bytes on the wire.
    pub open spec fn encoded(self) -> Seq<u8> {
        self.encoded_with((byte_sum(self.payload) % 0x1_0000_0000) as u32)
    }
}

/// What a header says, and whether it is one: first its magic has to match,
/// then its command has to be known, and then its length has to be within
/// bounds. The checksum in bytes 16 to 20 is read past on purpose: current
/// clients send zero there and never verify ours.
pub open spec fn header_in(header: Seq<u8>) -> Result<Header, FrameError> {
    let code = wire::le32_at(header, 0) as u32;
    let length = wire::le32_at(header, 12) as u32;
    if wire::le32_at(header, 20) != u32::MAX - code {
        Err(FrameError::BadMagic)
    } else if forall|command: Command| #[trigger] command.number() != code {
        Err(FrameError::UnknownCommand(code))
    } else if length > MAX_PAYLOAD {
        Err(FrameError::PayloadTooLarge(length))
    } else {
        Ok(
            Header {
                command: choose|command: Command| #[trigger] command.number() == code,
                arg0: wire::le32_at(header, 4) as u32,
                arg1: wire::le32_at(header, 8) as u32,
                length,
            },
        )
    }
}

/// The message at the start of `input` and how many bytes it takes; nothing
/// where it is not all there yet. Whether a header is one is settled on the
/// header alone.
pub open spec fn message_in(input: Seq<u8>) -> Result<Option<(MessageView, int)>, FrameError> {
    if input.len() < HEADER_LEN {
        Ok(None)
    } else {
        match header_in(input.take(HEADER_LEN as int)) {
            Err(error) => Err(error),
            Ok(header) => if input.len() < HEADER_LEN + header.length {
                Ok(None)
            } else {
                Ok(
                    Some(
                        (
                            MessageView {
                                command: header.command,
                                arg0: header.arg0,
                                arg1: header.arg1,
                                payload: input.subrange(
                                    HEADER_LEN as int,
                                    HEADER_LEN + header.length,
                                ),
                            },
                            HEADER_LEN + header.length,
                        ),
                    ),
                )
            },
        }
    }
}

/// The payload as text, without the NULs at its end.
pub open spec fn payload_text(payload: Seq<u8>) -> Seq<char> {
    text::trim_end_of(text::utf8_lossy(payload), '\0')
}

impl Header {
    /// Parse a header.
    pub fn parse(header: &[u8]) -> (parsed: Result<Header, FrameError>)
        requires
            header@.len() == HEADER_LEN,
        ensures
            parsed == header_in(header@),
    {
        let code: u32 = wire::read_le32(header, 0);
        let arg0: u32 = wire::read_le32(header, 4);
        let arg1: u32 = wire::read_le32(header, 8);
        let length: u32 = wire::read_le32(header, 12);
        let magic: u32 = wire::read_le32(header, 20);
        if magic != u32::MAX - code {
            return Err(FrameError::BadMagic);
        }
        match Command::from_code(code) {
            None => Err(FrameError::UnknownCommand(code)),
            Some(command) => {
                proof {
                    let chosen = choose|command: Command| #[trigger] command.number() == code;
                    law_codes_are_distinct(command, chosen);
                }
                if length > MAX_PAYLOAD {
                    return Err(FrameError::PayloadTooLarge(length));
                }
                Ok(Header { command, arg0, arg1, length })
            },
        }
    }
}

impl Message {
    pub fn new(command: Command, arg0: u32, arg1: u32, payload: Vec<u8>) -> (message: Self)
        ensures
            message@ == (MessageView { command, arg0, arg1, payload: payload@ }),
    {
        Message { command, arg0, arg1, payload: bytes_from(payload) }
    }

    pub fn empty(command: Command, arg0: u32, arg1: u32) -> (message: Self)
        ensures
            message@ == (MessageView { command, arg0, arg1, payload: Seq::empty() }),
    {
        Self::new(command, arg0, arg1, Vec::new())
    }

    /// The payload as a string with any trailing NUL removed.
    ///
    /// Service names and connection banners are NUL-terminated on the wire, and
    /// leaving the NUL on turns `shell:` into a service nothing matches.
    pub fn payload_str(&self) -> (text: String)
        ensures
            text@ == payload_text(self@.payload),
    {
        let lossy = text::lossy_text(bytes_slice(&self.payload));
        let chars = text::chars_of(&lossy);
        text::string_of(text::trimmed_end_of(&chars, '\0'))
    }

    /// The message as it goes out on the wire.
    pub fn encode(&self) -> (out: Vec<u8>)
        ensures
            out@ == self@.encoded(),
    {
        let payload = bytes_slice(&self.payload);
        let code: u32 = self.command.code();
        let mut out: Vec<u8> = Vec::new();
        wire::push_le32(&mut out, code);
        wire::push_le32(&mut out, self.arg0);
        wire::push_le32(&mut out, self.arg1);
        wire::push_le32(&mut out, (payload.len() as u64 % 0x1_0000_0000) as u32);
        wire::push_le32(&mut out, checksum(payload));
        wire::push_le32(&mut out, u32::MAX - code);
        wire::append(&mut out, payload);
        proof {
            reveal(six_words);
            assert(out@ =~= self@.encoded());
        }
        out
    }

    /// Read the message at the start of `input`, and how many bytes it takes.
    /// Nothing where it is not all there yet.
    pub fn read(input: &[u8]) -> (message: Result<Option<(Message, usize)>, FrameError>)
        ensures
            match message {
                Ok(Some((message, used))) => message_in(input@) == Ok::<_, FrameError>(
                    Some((message@, used as int)),
                ),
                Ok(None) => message_in(input@) == Ok::<
                    Option<(MessageView, int)>,
                    FrameError,
                >(None),
                Err(error) => message_in(input@) == Err::<
                    Option<(MessageView, int)>,
                    FrameError,
                >(error),
            },
    {
        if input.len() < HEADER_LEN {
            return Ok(None);
        }
        assert(input@.subrange(0, HEADER_LEN as int) =~= input@.take(HEADER_LEN as int));
        match Header::parse(&input[0..HEADER_LEN]) {
            Err(error) => Err(error),
            Ok(header) => {
                let length: usize = header.length as usize;
                if input.len() - HEADER_LEN < length {
                    return Ok(None);
                }
                let end: usize = HEADER_LEN + length;
                let payload = vstd::slice::slice_to_vec(&input[HEADER_LEN..end]);
                Ok(
                    Some((Message::new(header.command, header.arg0, header.arg1, payload), end)),
                )
            },
        }
    }
}

/// The checksum that a header carries: the sum of the payload's bytes.
pub fn checksum(payload: &[u8]) -> (sum: u32)
    ensures
        sum == byte_sum(payload@) % 0x1_0000_0000,
{
    let mut sum: u32 = 0;
    let mut i: usize = 0;
    assert(payload@.take(0) =~= Seq::<u8>::empty());
    while i < payload.len()
        invariant
            i <= payload.len(),
            sum == byte_sum(payload@.take(i as int)) % 0x1_0000_0000,
        decreases payload.len() - i,
    {
        let ghost more = payload@.take(i + 1);
        assert(more.drop_last() =~= payload@.take(i as int));
        assert(more.last() == payload@[i as int]);
        sum = sum.wrapping_add(payload[i] as u32);
        i += 1;
    }
    assert(payload@.take(i as int) =~= payload@);
    sum
}

proof fn lemma_word(before: Seq<u8>, x: u32, after: Seq<u8>, whole: Seq<u8>)
    requires
        whole == before + wire::le32(x) + after,
    ensures
        wire::le32_at(whole, before.len() as int) == x,
{
    wire::law_le32_reads_back(x, before, after);
}

proof fn lemma_six_words(a: u32, b: u32, c: u32, d: u32, e: u32, f: u32)
    ensures
        ({
            let h = six_words(a, b, c, d, e, f);
            &&& h.len() == 24
            &&& wire::le32_at(h, 0) == a
            &&& wire::le32_at(h, 4) == b
            &&& wire::le32_at(h, 8) == c
            &&& wire::le32_at(h, 12) == d
            &&& wire::le32_at(h, 20) == f
        }),
{
    reveal(six_words);
    let h = six_words(a, b, c, d, e, f);
    let (wa, wb, wc) = (wire::le32(a), wire::le32(b), wire::le32(c));
    let (wd, we, wf) = (wire::le32(d), wire::le32(e), wire::le32(f));
    assert(h =~= Seq::<u8>::empty() + wa + (wb + wc + wd + we + wf));
    lemma_word(Seq::empty(), a, wb + wc + wd + we + wf, h);
    assert(h =~= wa + wb + (wc + wd + we + wf));
    lemma_word(wa, b, wc + wd + we + wf, h);
    assert(h =~= wa + wb + wc + (wd + we + wf));
    lemma_word(wa + wb, c, wd + we + wf, h);
    assert(h =~= wa + wb + wc + wd + (we + wf));
    lemma_word(wa + wb + wc, d, we + wf, h);
    assert(h =~= wa + wb + wc + wd + we + wf + Seq::<u8>::empty());
    lemma_word(wa + wb + wc + wd + we, f, Seq::empty(), h);
}

/// A message that is within bounds reads back as itself from its own bytes,
/// whatever checksum they carry and whatever follows them, and takes exactly
/// those.
pub proof fn law_a_message_survives_a_round_trip(message: MessageView, sum: u32, rest: Seq<u8>)
    requires
        message.payload.len() <= MAX_PAYLOAD,
    ensures
        message_in(message.encoded_with(sum) + rest) == Ok::<_, FrameError>(
            Some((message, message.encoded_with(sum).len() as int)),
        ),
        message_in(message.encoded() + rest) == Ok::<_, FrameError>(
            Some((message, message.encoded().len() as int)),
        ),
{
    lemma_reads_back(message, sum, rest);
    lemma_reads_back(message, (byte_sum(message.payload) % 0x1_0000_0000) as u32, rest);
}

proof fn lemma_reads_back(message: MessageView, sum: u32, rest: Seq<u8>)
    requires
        message.payload.len() <= MAX_PAYLOAD,
    ensures
        message_in(message.encoded_with(sum) + rest) == Ok::<_, FrameError>(
            Some((message, message.encoded_with(sum).len() as int)),
        ),
{
    let code = message.command.number();
    let length = message.payload.len() as u32;
    let magic = (u32::MAX - code) as u32;
    let header = six_words(code, message.arg0, message.arg1, length, sum, magic);
    lemma_six_words(code, message.arg0, message.arg1, length, sum, magic);
    assert(message.encoded_with(sum) =~= header + message.payload);
    let input = message.encoded_with(sum) + rest;
    assert(input.take(HEADER_LEN as int) =~= header);
    let chosen = choose|command: Command| #[trigger] command.number() == code;
    law_codes_are_distinct(message.command, chosen);
    assert(input.subrange(HEADER_LEN as int, HEADER_LEN + length) =~= message.payload);
}

/// A header that is refused is refused before any payload has arrived, and the
/// same way whatever follows it: nothing is allocated for what it claims.
pub proof fn law_a_bad_header_is_refused_on_its_own(header: Seq<u8>, rest: Seq<u8>)
    requires
        header.len() == HEADER_LEN,
        header_in(header) is Err,
    ensures
        message_in(header) == message_in(header + rest),
        message_in(header + rest) is Err,
{
    assert((header + rest).take(HEADER_LEN as int) =~= header);
    assert(header.take(HEADER_LEN as int) =~= header);
}

/// Where everything stands in a message on the wire: six numbers, least significant
/// byte first, which are the command, its two arguments, the length of the payload,
/// the sum of its bytes and the command's complement, and then the payload.
pub proof fn law_a_message_is_laid_out_in_six_words(message: MessageView)
    ensures
        ({
            let bytes = message.encoded();
            &&& bytes.len() == 24 + message.payload.len()
            &&& wire::le32_at(bytes, 0) == message.command.number()
            &&& wire::le32_at(bytes, 4) == message.arg0
            &&& wire::le32_at(bytes, 8) == message.arg1
            &&& wire::le32_at(bytes, 12) == message.payload.len() % 0x1_0000_0000
            &&& wire::le32_at(bytes, 16) == byte_sum(message.payload) % 0x1_0000_0000
            &&& wire::le32_at(bytes, 20) + message.command.number() == 0xFFFF_FFFF
            &&& bytes.skip(24) == message.payload
        }),
{
    let code = message.command.number();
    let length = (message.payload.len() % 0x1_0000_0000) as u32;
    let sum = (byte_sum(message.payload) % 0x1_0000_0000) as u32;
    let magic = (u32::MAX - code) as u32;
    let header = six_words(code, message.arg0, message.arg1, length, sum, magic);
    lemma_six_words(code, message.arg0, message.arg1, length, sum, magic);
    lemma_fifth_word(code, message.arg0, message.arg1, length, sum, magic);
    let bytes = message.encoded();
    assert(bytes =~= header + message.payload);
    assert(forall|at: int| 0 <= at < 24 ==> bytes[at] == header[at]);
    assert(bytes.skip(24) =~= message.payload);
}

proof fn lemma_fifth_word(a: u32, b: u32, c: u32, d: u32, e: u32, f: u32)
    ensures
        wire::le32_at(six_words(a, b, c, d, e, f), 16) == e,
{
    reveal(six_words);
    let h = six_words(a, b, c, d, e, f);
    let before = wire::le32(a) + wire::le32(b) + wire::le32(c) + wire::le32(d);
    assert(h =~= before + wire::le32(e) + wire::le32(f));
    lemma_word(before, e, wire::le32(f), h);
}

/// A payload's sum counts every byte of it once, in whatever order.
pub proof fn law_a_checksum_adds_up(a: Seq<u8>, b: Seq<u8>, byte: u8)
    ensures
        byte_sum(a + b) == byte_sum(a) + byte_sum(b),
        byte_sum(seq![byte]) == byte,
    decreases b.len(),
{
    assert(seq![byte].drop_last() =~= Seq::<u8>::empty());
    assert(byte_sum(seq![byte].drop_last()) == 0);
    if b.len() == 0 {
        assert(a + b =~= a);
    } else {
        assert((a + b).drop_last() =~= a + b.drop_last());
        law_a_checksum_adds_up(a, b.drop_last(), byte);
    }
}

} // verus!
