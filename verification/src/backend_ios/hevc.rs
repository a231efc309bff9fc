//! HEVC depacketisation and the browser-facing access-unit format.
//!
//! NAL units are put back together from RTP payloads (RFC 7798), Apple's
//! proprietary footer is cut off, and access units leave as the
//! ISO/IEC 14496-15 sample format: NAL units behind four-byte lengths, with the
//! parameter sets supplied out of band as a `HEVCDecoderConfigurationRecord`.

use crate::text;
use crate::video;
use crate::wire;
use vstd::prelude::*;
use vstd::string::*;

verus! {

pub const NAL_IDR_W_RADL: u8 = 19;

pub const NAL_IDR_N_LP: u8 = 20;

pub const NAL_CRA: u8 = 21;

pub const NAL_VPS: u8 = 32;

pub const NAL_SPS: u8 = 33;

pub const NAL_PPS: u8 = 34;

/// RFC 7798 aggregation packet.
pub const NAL_AP: u8 = 48;

/// RFC 7798 fragmentation unit.
pub const NAL_FU: u8 = 49;

/// Apple's DisplayService appends this fixed 14-byte proprietary footer after
/// the final fragment of each coded-slice NAL. It is not part of the HEVC
/// bitstream, and a decoder would take it for trailing slice data. It is
/// matched as an exact suffix, so streams without it are left alone.
pub const DISPLAYSERVICE_NAL_TRAILER: [u8; 14] = [
    0x04, 0xf0, 0x0a, 0xc0, 0x00, 0x00, 0x03, 0x00, 0x00, 0x04, 0xec, 0x0a, 0xb0, 0x03,
];

/// The unit type in a NAL unit's first byte.
pub open spec fn nal_type_of(nal: Seq<u8>) -> u8 {
    (nal[0] >> 1) & 0x3f
}

/// Whether `nal` ends in the DisplayService footer.
pub open spec fn has_trailer(nal: Seq<u8>) -> bool {
    nal.len() >= 14 && nal.subrange(nal.len() - 14, nal.len() as int)
        == DISPLAYSERVICE_NAL_TRAILER@
}

/// `nal` without the DisplayService footer.
pub open spec fn without_trailer(nal: Seq<u8>) -> Seq<u8> {
    if has_trailer(nal) {
        nal.subrange(0, nal.len() - 14)
    } else {
        nal
    }
}

/// The unit type of a NAL unit.
pub fn nal_type(nal: &[u8]) -> (t: u8)
    requires
        nal@.len() > 0,
    ensures
        t == nal_type_of(nal@),
{
    (nal[0] >> 1) & 0x3f
}

/// Whether a picture of this type can be decoded without an earlier one.
pub fn is_key_nal(nal_type: u8) -> (key: bool)
    ensures
        key == (nal_type == NAL_IDR_W_RADL || nal_type == NAL_IDR_N_LP || nal_type == NAL_CRA),
{
    matches!(nal_type, NAL_IDR_W_RADL | NAL_IDR_N_LP | NAL_CRA)
}

fn strip_trailer(nal: &[u8]) -> (out: &[u8])
    ensures
        out@ == without_trailer(nal@),
{
    let n: usize = DISPLAYSERVICE_NAL_TRAILER.len();
    if nal.len() < n {
        return nal;
    }
    let base: usize = nal.len() - n;
    let mut i: usize = 0;
    while i < n
        invariant
            n == 14,
            base + n == nal.len(),
            i <= n,
            forall|k: int|
                0 <= k < i ==> nal@[base + k] == #[trigger] DISPLAYSERVICE_NAL_TRAILER@[k],
        decreases n - i,
    {
        if nal[base + i] != DISPLAYSERVICE_NAL_TRAILER[i] {
            assert(nal@.subrange(base as int, nal@.len() as int)[i as int] == nal@[base + i]);
            return nal;
        }
        i += 1;
    }
    assert(nal@.subrange(base as int, nal@.len() as int) =~= DISPLAYSERVICE_NAL_TRAILER@);
    &nal[0..base]
}

/// The NAL units that an aggregation packet holds from byte `at` on: each
/// behind a two-byte length, the last cut off where the packet ends, empty ones
/// left out.
pub open spec fn aggregated(payload: Seq<u8>, at: int) -> Seq<Seq<u8>>
    decreases payload.len() - at,
{
    if at < 0 || at + 2 > payload.len() {
        Seq::empty()
    } else {
        let start = at + 2;
        let declared = start + wire::be16_at(payload, at);
        let end = if declared < payload.len() {
            declared
        } else {
            payload.len() as int
        };
        let here = if start < end {
            seq![without_trailer(payload.subrange(start, end))]
        } else {
            Seq::empty()
        };
        here + aggregated(payload, end)
    }
}

/// Whether a fragment is the first of its NAL unit.
pub open spec fn fragment_starts(payload: Seq<u8>) -> bool {
    payload[2] & 0x80 != 0
}

/// Whether a fragment is the last of its NAL unit.
pub open spec fn fragment_ends(payload: Seq<u8>) -> bool {
    payload[2] & 0x40 != 0
}

/// The header that a start fragment's NAL unit had before it was cut up: the
/// forbidden-zero and layer-id bits of the payload header, with the real type
/// from the fragment header.
pub open spec fn original_header(payload: Seq<u8>) -> Seq<u8> {
    seq![(payload[0] & 0x81) | ((payload[2] & 0x3f) << 1u8), payload[1]]
}

/// What one payload does to a depacketizer: the fragment in hand after it, and
/// the NAL units that it completes.
pub open spec fn depacketized(fragment: Option<Seq<u8>>, payload: Seq<u8>) -> (
    Option<Seq<u8>>,
    Seq<Seq<u8>>,
) {
    if payload.len() < 2 {
        (fragment, Seq::empty())
    } else if nal_type_of(payload) == NAL_AP {
        (fragment, aggregated(payload, 2))
    } else if nal_type_of(payload) == NAL_FU {
        if payload.len() < 3 || (!fragment_starts(payload) && fragment is None) {
            (fragment, Seq::empty())
        } else {
            let body = payload.subrange(3, payload.len() as int);
            let whole = if fragment_starts(payload) {
                original_header(payload) + body
            } else {
                fragment->0 + body
            };
            if fragment_ends(payload) {
                (None, seq![without_trailer(whole)])
            } else {
                (Some(whole), Seq::empty())
            }
        }
    } else {
        (fragment, seq![without_trailer(payload)])
    }
}

/// The units of `nals`, each as a sequence of bytes.
pub open spec fn units(nals: Seq<Vec<u8>>) -> Seq<Seq<u8>> {
    nals.map_values(|nal: Vec<u8>| nal@)
}

/// Reassembles NAL units from RTP/HEVC payloads (RFC 7798).
pub struct Depacketizer {
    fu_buffer: Vec<u8>,
    /// Whether a start fragment has been seen for the NAL being assembled.
    /// Without it a continuation that arrives after a reset would be emitted as
    /// a NAL with no header at all.
    fu_active: bool,
}

impl View for Depacketizer {
    /// The NAL unit being assembled, as far as it has arrived.
    type V = Option<Seq<u8>>;

    closed spec fn view(&self) -> Option<Seq<u8>> {
        if self.fu_active {
            Some(self.fu_buffer@)
        } else {
            None
        }
    }
}

impl Default for Depacketizer {
    fn default() -> (depacketizer: Self)
        ensures
            depacketizer@ == None::<Seq<u8>>,
    {
        Depacketizer { fu_buffer: Vec::new(), fu_active: false }
    }
}

impl Depacketizer {
    pub fn new() -> (depacketizer: Self)
        ensures
            depacketizer@ == None::<Seq<u8>>,
    {
        Depacketizer { fu_buffer: Vec::new(), fu_active: false }
    }

    /// Discard any half-assembled fragment.
    ///
    /// Called on an RTP sequence gap: stitching non-contiguous payloads into
    /// one NAL produces a NAL that is structurally valid and semantically
    /// garbage, which is far worse than dropping it.
    pub fn reset_fragment(&mut self)
        ensures
            final(self)@ == None::<Seq<u8>>,
    {
        self.fu_buffer.clear();
        self.fu_active = false;
    }

    /// Process one RTP payload, appending every complete NAL unit to `out`.
    pub fn push(&mut self, payload: &[u8], out: &mut Vec<Vec<u8>>)
        ensures
            final(self)@ == depacketized(old(self)@, payload@).0,
            units(final(out)@) == units(old(out)@) + depacketized(old(self)@, payload@).1,
    {
        let ghost before = units(out@);
        if payload.len() < 2 {
            assert(units(out@) =~= before + Seq::<Seq<u8>>::empty());
            return;
        }
        let kind: u8 = nal_type(payload);
        if kind == NAL_AP {
            let mut i: usize = 2;
            assert(units(out@) + aggregated(payload@, 2) =~= before + aggregated(payload@, 2));
            while payload.len() - i >= 2
                invariant
                    i <= payload.len(),
                    units(out@) + aggregated(payload@, i as int) == before + aggregated(
                        payload@,
                        2,
                    ),
                decreases payload.len() - i,
            {
                let ghost at = i as int;
                let ghost sent = units(out@);
                let size: usize = wire::read_be16(payload, i) as usize;
                i += 2;
                let end: usize = if size < payload.len() - i {
                    i + size
                } else {
                    payload.len()
                };
                if i < end {
                    let nal = vstd::slice::slice_to_vec(strip_trailer(&payload[i..end]));
                    let ghost unit = nal@;
                    out.push(nal);
                    assert(units(out@) =~= sent.push(unit));
                    assert(sent.push(unit) + aggregated(payload@, end as int) =~= sent + (
                    seq![unit] + aggregated(payload@, end as int)));
                } else {
                    assert(Seq::<Seq<u8>>::empty() + aggregated(payload@, end as int)
                        =~= aggregated(payload@, end as int));
                }
                i = end;
            }
            assert(aggregated(payload@, i as int) =~= Seq::<Seq<u8>>::empty());
            assert(units(out@) + Seq::<Seq<u8>>::empty() =~= units(out@));
        } else if kind == NAL_FU {
            if payload.len() < 3 {
                assert(units(out@) =~= before + Seq::<Seq<u8>>::empty());
                return;
            }
            let fu_header: u8 = payload[2];
            let start = fu_header & 0x80 != 0;
            let end = fu_header & 0x40 != 0;
            let original_nal_type: u8 = fu_header & 0x3f;
            if start {
                self.fu_buffer.clear();
                self.fu_buffer.push((payload[0] & 0x81) | (original_nal_type << 1u8));
                self.fu_buffer.push(payload[1]);
                self.fu_active = true;
                assert(self.fu_buffer@ =~= original_header(payload@));
            } else if !self.fu_active {
                assert(units(out@) =~= before + Seq::<Seq<u8>>::empty());
                return;
            }
            wire::append(&mut self.fu_buffer, &payload[3..payload.len()]);
            if end {
                let nal = vstd::slice::slice_to_vec(strip_trailer(&self.fu_buffer));
                let ghost unit = nal@;
                out.push(nal);
                assert(units(out@) =~= before + seq![unit]);
                self.reset_fragment();
            } else {
                assert(units(out@) =~= before + Seq::<Seq<u8>>::empty());
            }
        } else {
            let nal = vstd::slice::slice_to_vec(strip_trailer(payload));
            let ghost unit = nal@;
            out.push(nal);
            assert(units(out@) =~= before + seq![unit]);
        }
    }
}

/// `s` with every emulation-prevention byte taken out (`00 00 03` is `00 00`).
pub open spec fn unescaped(s: Seq<u8>) -> Seq<u8>
    decreases s.len(),
{
    if s.len() == 0 {
        Seq::empty()
    } else if s.len() >= 3 && s[0] == 0 && s[1] == 0 && s[2] == 3 {
        seq![0u8, 0u8] + unescaped(s.subrange(3, s.len() as int))
    } else {
        seq![s[0]] + unescaped(s.subrange(1, s.len() as int))
    }
}

/// The raw bytes of a NAL unit: without its two-byte header, unescaped.
pub open spec fn raw_bytes(nal: Seq<u8>) -> Seq<u8> {
    if nal.len() <= 2 {
        Seq::empty()
    } else {
        unescaped(nal.subrange(2, nal.len() as int))
    }
}

/// Bit `i` of a bitstream, the most significant of each byte first. Past the
/// end every bit is zero.
pub open spec fn bit_at(data: Seq<u8>, i: int) -> int {
    if 0 <= i < 8 * data.len() {
        ((data[i / 8] >> ((7 - i % 8) as u8)) & 1u8) as int
    } else {
        0
    }
}

/// The number in the `count` bits from `pos`, most significant first.
pub open spec fn bits_value(data: Seq<u8>, pos: int, count: nat) -> int
    decreases count,
{
    if count == 0 {
        0
    } else {
        2 * bits_value(data, pos, (count - 1) as nat) + bit_at(data, pos + count - 1)
    }
}

/// The number in the `count` bits from `pos`, least significant first.
pub open spec fn reversed_bits_value(data: Seq<u8>, pos: int, count: nat) -> int
    decreases count,
{
    if count == 0 {
        0
    } else {
        bit_at(data, pos) + 2 * reversed_bits_value(data, pos + 1, (count - 1) as nat)
    }
}

/// Whether there are exactly `zeros` zero bits before the next one bit.
pub open spec fn zeros_then_one(data: Seq<u8>, pos: int, zeros: int) -> bool {
    &&& 0 <= zeros
    &&& bit_at(data, pos + zeros) == 1
    &&& forall|k: int| pos <= k < pos + zeros ==> #[trigger] bit_at(data, k) == 0
}

/// The exp-Golomb number at `pos`, and where the bits after it start: as many
/// bits as zeros lead it, and none where more than 32 do.
pub open spec fn golomb_at(data: Seq<u8>, pos: int) -> Option<(int, int)> {
    if exists|zeros: int| zeros <= 32 && zeros_then_one(data, pos, zeros) {
        let zeros = choose|zeros: int| zeros <= 32 && zeros_then_one(data, pos, zeros);
        Some(
            (
                vstd::arithmetic::power2::pow2(zeros as nat) - 1 + bits_value(
                    data,
                    pos + zeros + 1,
                    zeros as nat,
                ),
                pos + 2 * zeros + 1,
            ),
        )
    } else {
        None
    }
}

proof fn lemma_bit(data: Seq<u8>, i: int)
    ensures
        0 <= bit_at(data, i) <= 1,
{
    if 0 <= i < 8 * data.len() {
        let byte = data[i / 8];
        let shift = (7 - i % 8) as u8;
        assert((byte >> shift) & 1u8 <= 1) by (bit_vector);
    }
}

proof fn lemma_bits_bound(data: Seq<u8>, pos: int, count: nat)
    ensures
        0 <= bits_value(data, pos, count) < vstd::arithmetic::power2::pow2(count),
    decreases count,
{
    vstd::arithmetic::power2::lemma2_to64();
    if count > 0 {
        lemma_bits_bound(data, pos, (count - 1) as nat);
        lemma_bit(data, pos + count - 1);
        vstd::arithmetic::power2::lemma_pow2_unfold(count);
    }
}

proof fn lemma_first_one(data: Seq<u8>, pos: int, a: int, b: int)
    requires
        zeros_then_one(data, pos, a),
        zeros_then_one(data, pos, b),
    ensures
        a == b,
{
    if a < b {
        assert(bit_at(data, pos + a) == 0);
    }
    if b < a {
        assert(bit_at(data, pos + b) == 0);
    }
}

/// Strip the 2-byte NAL header and emulation-prevention bytes.
fn rbsp(nal: &[u8]) -> (out: Vec<u8>)
    ensures
        out@ == raw_bytes(nal@),
{
    let mut out: Vec<u8> = Vec::new();
    if nal.len() <= 2 {
        return out;
    }
    let mut i: usize = 2;
    let ghost all = nal@.subrange(2, nal@.len() as int);
    assert(out@ + unescaped(all) =~= unescaped(all));
    while i < nal.len()
        invariant
            2 <= i <= nal.len(),
            out@ + unescaped(nal@.subrange(i as int, nal@.len() as int)) == unescaped(all),
        decreases nal.len() - i,
    {
        let ghost rest = nal@.subrange(i as int, nal@.len() as int);
        let ghost done = out@;
        if nal.len() - i > 2 && nal[i] == 0 && nal[i + 1] == 0 && nal[i + 2] == 3 {
            out.push(0);
            out.push(0);
            i += 3;
            assert(rest.subrange(3, rest.len() as int) =~= nal@.subrange(
                i as int,
                nal@.len() as int,
            ));
            assert(out@ =~= done + seq![0u8, 0u8]);
        } else {
            out.push(nal[i]);
            i += 1;
            assert(rest.subrange(1, rest.len() as int) =~= nal@.subrange(
                i as int,
                nal@.len() as int,
            ));
            assert(out@ =~= done + seq![rest[0]]);
        }
        assert(out@ + unescaped(nal@.subrange(i as int, nal@.len() as int)) =~= done + unescaped(
            rest,
        ));
    }
    assert(out@ =~= out@ + unescaped(nal@.subrange(i as int, nal@.len() as int)));
    out
}

/// Just enough of a bitstream reader for a sequence parameter set.
pub struct BitReader<'a> {
    pub data: &'a [u8],
    pub pos: usize,
}

impl<'a> BitReader<'a> {
    pub fn new(data: &'a [u8]) -> (reader: Self)
        ensures
            reader.data == data,
            reader.pos == 0,
    {
        BitReader { data, pos: 0 }
    }

    /// The next `count` bits as a number, of which the low 64 bits are kept.
    pub fn bits(&mut self, count: u32) -> (value: u64)
        requires
            old(self).pos + count <= usize::MAX,
        ensures
            final(self).data == old(self).data,
            final(self).pos == old(self).pos + count,
            value == bits_value(old(self).data@, old(self).pos as int, count as nat)
                % 0x1_0000_0000_0000_0000,
            count <= 64 ==> value == bits_value(
                old(self).data@,
                old(self).pos as int,
                count as nat,
            ),
    {
        let ghost start = self.pos as int;
        let mut value: u64 = 0;
        let mut i: u32 = 0;
        while i < count
            invariant
                i <= count,
                start + count <= usize::MAX,
                self.data == old(self).data,
                self.pos == start + i,
                value == bits_value(self.data@, start, i as nat) % 0x1_0000_0000_0000_0000,
            decreases count - i,
        {
            let byte: u8 = if self.pos / 8 < self.data.len() {
                self.data[self.pos / 8]
            } else {
                0
            };
            let shift: u8 = 7 - (self.pos % 8) as u8;
            let bit: u8 = (byte >> shift) & 1;
            proof {
                let p = self.pos as int;
                if p >= 8 * self.data@.len() {
                    assert(0u8 >> shift & 1u8 == 0) by (bit_vector);
                }
                assert(bit as int == bit_at(self.data@, p));
                lemma_bit(self.data@, p);
                let b = bit as u64;
                assert(((value << 1u64) | b) as int == (2 * value + b) % 0x1_0000_0000_0000_0000)
                    by (bit_vector)
                    requires
                        b <= 1,
                ;
                let x = bits_value(self.data@, start, i as nat);
                lemma_bits_bound(self.data@, start, i as nat);
                assert((2 * (x % 0x1_0000_0000_0000_0000) + b) % 0x1_0000_0000_0000_0000 == (2 * x
                    + b) % 0x1_0000_0000_0000_0000);
                assert(bits_value(self.data@, start, (i + 1) as nat) == 2 * x + b);
            }
            value = (value << 1u64) | (bit as u64);
            self.pos = self.pos + 1;
            i += 1;
        }
        proof {
            if count <= 64 {
                lemma_bits_bound(self.data@, start, count as nat);
                vstd::arithmetic::power2::lemma2_to64();
                if count < 64 {
                    vstd::arithmetic::power2::lemma_pow2_strictly_increases(count as nat, 64);
                }
                vstd::arithmetic::div_mod::lemma_small_mod(
                    bits_value(self.data@, start, count as nat) as nat,
                    0x1_0000_0000_0000_0000,
                );
            }
        }
        value
    }

    /// Exp-Golomb, the variable-length coding of the fields that follow the
    /// profile.
    pub fn ue(&mut self) -> (value: Option<u64>)
        requires
            old(self).pos + 66 <= usize::MAX,
        ensures
            final(self).data == old(self).data,
            match golomb_at(old(self).data@, old(self).pos as int) {
                Some((number, next)) => value == Some(number as u64) && 0 <= number
                    < 0x2_0000_0000 && final(self).pos == next && next <= old(self).pos + 65,
                None => value is None && old(self).pos < final(self).pos <= old(self).pos + 33,
            },
    {
        let ghost data = self.data@;
        let ghost start = self.pos as int;
        let mut leading: u32 = 0;
        loop
            invariant_except_break
                self.pos == start + leading,
            invariant
                leading <= 32,
                start + 66 <= usize::MAX,
                self.data == old(self).data,
                data == self.data@,
                start == old(self).pos,
                forall|k: int| start <= k < start + leading ==> #[trigger] bit_at(data, k) == 0,
            ensures
                leading <= 32,
                self.data == old(self).data,
                self.pos == start + leading + 1,
                zeros_then_one(data, start, leading as int),
            decreases 33 - leading,
        {
            let bit: u64 = self.bits(1);
            proof {
                reveal_with_fuel(bits_value, 2);
                lemma_bit(data, start + leading);
                assert(bit == bit_at(data, start + leading));
            }
            if bit != 0 {
                break;
            }
            leading += 1;
            // A run this long means reading past the data as zeroes rather
            // than parsing a real value.
            if leading > 32 || self.overran() {
                proof {
                    assert forall|zeros: int| zeros <= 32 implies !zeros_then_one(
                        data,
                        start,
                        zeros,
                    ) by {
                        if 0 <= zeros < leading {
                            assert(bit_at(data, start + zeros) == 0);
                        }
                    }
                }
                return None;
            }
        }
        proof {
            let zeros = choose|zeros: int| zeros <= 32 && zeros_then_one(data, start, zeros);
            lemma_first_one(data, start, leading as int, zeros);
            vstd::arithmetic::power2::lemma2_to64();
            if leading < 32 {
                vstd::arithmetic::power2::lemma_pow2_strictly_increases(leading as nat, 32);
            }
            vstd::bits::lemma_u64_shl_is_mul(1, leading as u64);
            lemma_bits_bound(data, start + leading + 1, leading as nat);
            vstd::arithmetic::power2::lemma_pow2_pos(leading as nat);
        }
        let base: u64 = (1u64 << leading) - 1;
        let rest: u64 = self.bits(leading);
        Some(base + rest)
    }

    /// Whether more bits have been read than there are.
    pub fn overran(&self) -> (past: bool)
        ensures
            past == (self.pos > 8 * self.data@.len()),
    {
        let whole: usize = self.pos / 8;
        whole > self.data.len() || (whole == self.data.len() && self.pos % 8 != 0)
    }
}

/// How many bits the blocks of the first `count` sub-layers take. Each has a
/// pair of flags, for its profile and for its level, from bit 104 on.
pub open spec fn sub_layer_bits(rb: Seq<u8>, count: nat) -> int
    decreases count,
{
    if count == 0 {
        0
    } else {
        let i = count - 1;
        sub_layer_bits(rb, i as nat) + 88 * bit_at(rb, 104 + 2 * i) + 8 * bit_at(
            rb,
            104 + 2 * i + 1,
        )
    }
}

/// Where a sequence parameter set's fields after `profile_tier_level` start.
/// The flags of the sub-layers are padded out to eight entries.
pub open spec fn size_fields_at(rb: Seq<u8>) -> int {
    let sub_layers = bits_value(rb, 4, 3);
    104 + (if sub_layers > 0 {
        16int
    } else {
        0
    }) + sub_layer_bits(rb, sub_layers as nat)
}

/// The frame size that a sequence parameter set gives, in luma samples: four
/// exp-Golomb numbers (the set's id, the chroma format, the width and the
/// height), with one more bit after a chroma format of three. None of it may
/// lie past the end, and neither side may be zero.
pub open spec fn frame_size(sps: Seq<u8>) -> Option<(int, int)> {
    let rb = raw_bytes(sps);
    match golomb_at(rb, size_fields_at(rb)) {
        None => None,
        Some((_, chroma_at)) => match golomb_at(rb, chroma_at) {
            None => None,
            Some((chroma, after)) => {
                let width_at = if chroma == 3 {
                    after + 1
                } else {
                    after
                };
                match golomb_at(rb, width_at) {
                    None => None,
                    Some((width, height_at)) => match golomb_at(rb, height_at) {
                        None => None,
                        Some((height, end)) => if end > 8 * rb.len() || width == 0 || height == 0 {
                            None
                        } else {
                            Some((width, height))
                        },
                    },
                }
            },
        },
    }
}

/// Encoded frame size from the SPS, in luma samples.
///
/// This is where display geometry comes from on modern iOS: lockdown answers no
/// screen dimensions at all there. The SPS is better anyway: it reports what is
/// actually being encoded, which is what a viewer sees, rather than what the
/// panel measures.
pub fn dimensions_from_sps(sps: &[u8]) -> (size: Option<(i64, i64)>)
    ensures
        match frame_size(sps@) {
            Some((width, height)) => size == Some((width as i64, height as i64)) && 0 < width
                < 0x2_0000_0000 && 0 < height < 0x2_0000_0000,
            None => size is None,
        },
{
    let rb = rbsp(sps);
    let ghost data = rb@;
    let mut reader = BitReader::new(&rb);
    reader.bits(4);  // sps_video_parameter_set_id
    let max_sub_layers_minus1: u32 = reader.bits(3) as u32;
    reader.bits(1);  // sps_temporal_id_nesting_flag
    proof {
        lemma_bits_bound(data, 4, 3);
        vstd::arithmetic::power2::lemma2_to64();
    }
    // profile_tier_level: the general block, then the sub-layer blocks.
    reader.bits(2 + 1 + 5);  // profile_space, tier_flag, profile_idc
    reader.bits(32);  // general_profile_compatibility_flags
    reader.bits(48);  // general_constraint_indicator_flags
    reader.bits(8);  // general_level_idc

    let mut sub_layer_profile: Vec<bool> = Vec::new();
    let mut sub_layer_level: Vec<bool> = Vec::new();
    let mut i: u32 = 0;
    while i < max_sub_layers_minus1
        invariant
            i <= max_sub_layers_minus1 <= 7,
            reader.data@ == data,
            reader.pos == 104 + 2 * i,
            sub_layer_profile@.len() == i,
            sub_layer_level@.len() == i,
            forall|k: int|
                0 <= k < i ==> #[trigger] sub_layer_profile@[k] == (bit_at(data, 104 + 2 * k) != 0),
            forall|k: int|
                0 <= k < i ==> #[trigger] sub_layer_level@[k] == (bit_at(data, 104 + 2 * k + 1)
                    != 0),
        decreases max_sub_layers_minus1 - i,
    {
        proof {
            reveal_with_fuel(bits_value, 2);
        }
        sub_layer_profile.push(reader.bits(1) != 0);
        sub_layer_level.push(reader.bits(1) != 0);
        i += 1;
    }
    if max_sub_layers_minus1 > 0 {
        // reserved_zero_2bits, padded out to eight entries.
        let mut j: u32 = max_sub_layers_minus1;
        while j < 8
            invariant
                j <= 8,
                reader.data@ == data,
                reader.pos == 104 + 2 * j,
            decreases 8 - j,
        {
            reader.bits(2);
            j += 1;
        }
    }
    let mut i: usize = 0;
    let ghost blocks = reader.pos as int;
    while i < max_sub_layers_minus1 as usize
        invariant
            i <= max_sub_layers_minus1 <= 7,
            reader.data@ == data,
            blocks <= 120,
            reader.pos == blocks + sub_layer_bits(data, i as nat),
            reader.pos <= 120 + 96 * i,
            sub_layer_profile@.len() == max_sub_layers_minus1,
            sub_layer_level@.len() == max_sub_layers_minus1,
            forall|k: int|
                0 <= k < max_sub_layers_minus1 ==> #[trigger] sub_layer_profile@[k] == (bit_at(
                    data,
                    104 + 2 * k,
                ) != 0),
            forall|k: int|
                0 <= k < max_sub_layers_minus1 ==> #[trigger] sub_layer_level@[k] == (bit_at(
                    data,
                    104 + 2 * k + 1,
                ) != 0),
        decreases max_sub_layers_minus1 - i,
    {
        proof {
            lemma_bit(data, 104 + 2 * i);
            lemma_bit(data, 104 + 2 * i + 1);
        }
        if sub_layer_profile[i] {
            reader.bits(2 + 1 + 5 + 32 + 48);
        }
        if sub_layer_level[i] {
            reader.bits(8);
        }
        i += 1;
    }
    assert(reader.pos == size_fields_at(data));
    if reader.ue().is_none() {  // sps_seq_parameter_set_id
        return None;
    }
    let chroma_format_idc: u64 = match reader.ue() {
        Some(value) => value,
        None => {
            return None;
        },
    };
    if chroma_format_idc == 3 {
        reader.bits(1);  // separate_colour_plane_flag
    }
    let width: i64 = match reader.ue() {
        Some(value) => value as i64,
        None => {
            return None;
        },
    };
    let height: i64 = match reader.ue() {
        Some(value) => value as i64,
        None => {
            return None;
        },
    };
    if reader.overran() || width == 0 || height == 0 {
        return None;
    }
    Some((width, height))
}

/// `digits` without the pairs of zeros at its end, of which the first pair of
/// digits is kept.
pub open spec fn without_zero_pairs(digits: Seq<char>) -> Seq<char>
    decreases digits.len(),
{
    let n = digits.len();
    if n > 2 && digits[n - 1] == '0' && digits[n - 2] == '0' {
        without_zero_pairs(digits.subrange(0, n - 2))
    } else {
        digits
    }
}

/// The letter for a profile space.
pub open spec fn profile_space_text(profile_space: int) -> Seq<char> {
    if profile_space == 0 {
        ""@
    } else if profile_space == 1 {
        "A"@
    } else if profile_space == 2 {
        "B"@
    } else {
        "C"@
    }
}

/// The WebCodecs name of a sequence parameter set's codec (ISO/IEC 14496-15
/// §A.3.3.1), where `rb` holds its raw bytes:
/// `hev1.<profile_space><profile_idc>.<reversed_pcf>.<tier><level>.<constraints>`
pub open spec fn codec_text(rb: Seq<u8>) -> Seq<char> {
    "hev1."@ + profile_space_text(bits_value(rb, 8, 2)) + text::decimal(
        bits_value(rb, 11, 5) as nat,
    ) + "."@ + text::hex(reversed_bits_value(rb, 16, 32) as nat, 0, true) + "."@ + (if bits_value(
        rb,
        10,
        1,
    ) != 0 {
        "H"@
    } else {
        "L"@
    }) + text::decimal(bits_value(rb, 96, 8) as nat) + "."@ + without_zero_pairs(
        text::hex(bits_value(rb, 48, 48) as nat, 12, true),
    )
}

/// The last two of at least three hexadecimal digits are those of the last
/// byte.
proof fn lemma_last_pair(n: nat, width: nat)
    requires
        width >= 3,
    ensures
        ({
            let digits = text::hex(n, width, true);
            &&& digits.len() == text::hex(n / 256, (width - 2) as nat, true).len() + 2
            &&& digits.subrange(0, digits.len() - 2) == text::hex(
                n / 256,
                (width - 2) as nat,
                true,
            )
            &&& (digits[digits.len() - 1] == '0' && digits[digits.len() - 2] == '0') == (n % 256
                == 0)
        }),
{
    reveal_with_fuel(text::hex, 3);
    let digits = text::hex(n, width, true);
    let front = text::hex(n / 256, (width - 2) as nat, true);
    assert(n / 16 / 16 == n / 256);
    assert(digits =~= front.push(text::digit((n / 16 % 16) as int, true)).push(
        text::digit((n % 16) as int, true),
    ));
    assert(digits.subrange(0, digits.len() - 2) =~= front);
}

/// The 32 bits from `pos`, least significant first.
fn reversed_bits(data: &[u8], pos: usize) -> (value: u32)
    requires
        pos + 32 <= usize::MAX,
    ensures
        value == reversed_bits_value(data@, pos as int, 32),
{
    let mut value: u64 = 0;
    let mut i: usize = 32;
    proof {
        vstd::arithmetic::power2::lemma2_to64();
    }
    while i > 0
        invariant
            i <= 32,
            pos + 32 <= usize::MAX,
            value == reversed_bits_value(data@, pos + i, (32 - i) as nat),
            value < vstd::arithmetic::power2::pow2((32 - i) as nat),
        decreases i,
    {
        i -= 1;
        let mut reader = BitReader { data, pos: pos + i };
        let bit: u64 = reader.bits(1);
        proof {
            reveal_with_fuel(bits_value, 2);
            lemma_bit(data@, pos + i);
            vstd::arithmetic::power2::lemma_pow2_unfold((32 - i) as nat);
            vstd::arithmetic::power2::lemma2_to64();
            if i > 0 {
                vstd::arithmetic::power2::lemma_pow2_strictly_increases((32 - i) as nat, 32);
            }
        }
        value = bit + 2 * value;
    }
    value as u32
}

/// Parse the SPS and return the WebCodecs codec string.
pub fn codec_string_from_sps(sps: &[u8]) -> (codec: Result<String, &'static str>)
    ensures
        match codec {
            Ok(name) => raw_bytes(sps@).len() >= 13 && name@ == codec_text(raw_bytes(sps@)),
            Err(reason) => raw_bytes(sps@).len() < 13 && reason@
                == "SPS too short to contain profile_tier_level"@,
        },
{
    let rb = rbsp(sps);
    let ghost data = rb@;
    let mut reader = BitReader::new(&rb);
    proof {
        vstd::arithmetic::power2::lemma2_to64();
        vstd::arithmetic::power2::lemma2_to64_rest();
        lemma_bits_bound(data, 8, 2);
        lemma_bits_bound(data, 48, 48);
    }
    reader.bits(4);  // sps_video_parameter_set_id
    reader.bits(3);  // sps_max_sub_layers_minus1
    reader.bits(1);  // sps_temporal_id_nesting_flag
    let profile_space: u64 = reader.bits(2);
    let tier_flag: u64 = reader.bits(1);
    let profile_idc: u64 = reader.bits(5);
    let pcf_reversed: u32 = reversed_bits(&rb, 16);
    reader.bits(32);
    let cif: u64 = reader.bits(48);
    let level_idc: u64 = reader.bits(8);
    if reader.overran() {
        return Err("SPS too short to contain profile_tier_level");
    }
    let mut out = String::new();
    out.append("hev1.");
    if profile_space == 0 {
        out.append("");
    } else if profile_space == 1 {
        out.append("A");
    } else if profile_space == 2 {
        out.append("B");
    } else {
        out.append("C");
    }
    text::push_decimal(&mut out, profile_idc);
    out.append(".");
    text::push_hex(&mut out, pcf_reversed as u64, 0, true);
    out.append(".");
    if tier_flag != 0 {
        out.append("H");
    } else {
        out.append("L");
    }
    text::push_decimal(&mut out, level_idc);
    out.append(".");
    let mut constraints: u64 = cif;
    let mut width: usize = 12;
    proof {
        reveal_with_fuel(vstd::arithmetic::power::pow, 13);
        assert(vstd::arithmetic::power::pow(16, 12) == 0x1_0000_0000_0000);
        text::lemma_hex_len(cif as nat, 12, true);
    }
    while width > 2 && constraints % 256 == 0
        invariant
            1 <= width <= 12,
            width % 2 == 0,
            text::hex(constraints as nat, width as nat, true).len() == width,
            without_zero_pairs(text::hex(cif as nat, 12, true)) == without_zero_pairs(
                text::hex(constraints as nat, width as nat, true),
            ),
        decreases width,
    {
        proof {
            lemma_last_pair(constraints as nat, width as nat);
        }
        constraints = constraints / 256;
        width = width - 2;
    }
    proof {
        if width > 2 {
            lemma_last_pair(constraints as nat, width as nat);
        }
    }
    text::push_hex(&mut out, constraints, width, true);
    Ok(out)
}

/// The bytes of a vector that may not be there yet.
pub open spec fn bytes_in(slot: Option<Vec<u8>>) -> Option<Seq<u8>> {
    match slot {
        Some(bytes) => Some(bytes@),
        None => None,
    }
}

/// One array of a decoder configuration record, holding one NAL unit.
/// `array_completeness` stays zero: `hev1` allows in-band parameter sets.
pub open spec fn record_array(kind: u8, nal: Seq<u8>) -> Seq<u8> {
    seq![kind] + wire::be16(1) + wire::be16((nal.len() % 0x1_0000) as u16) + nal
}

/// An ISO/IEC 14496-15 §8.3.3.1 `HEVCDecoderConfigurationRecord` for a sequence
/// parameter set with the raw bytes `rb`. The 12 bytes of its general
/// `profile_tier_level` have the layout that the record wants.
pub open spec fn configuration_record(
    rb: Seq<u8>,
    vps: Seq<u8>,
    sps: Seq<u8>,
    pps: Seq<u8>,
) -> Seq<u8> {
    seq![1u8] + rb.subrange(1, 13) + seq![
        0xF0u8,
        0x00u8,
        0xFCu8,
        0xFDu8,
        0xF8u8,
        0xF8u8,
        0u8,
        0u8,
        0x0Bu8,
        3u8,
    ] + record_array(NAL_VPS, vps) + record_array(NAL_SPS, sps) + record_array(NAL_PPS, pps)
}

fn push_record_array(record: &mut Vec<u8>, kind: u8, nal: &[u8])
    ensures
        final(record)@ == old(record)@ + record_array(kind, nal@),
{
    record.push(kind);
    wire::push_be16(record, 1);  // numNalus
    wire::push_be16(record, (nal.len() % 0x1_0000) as u16);
    wire::append(record, nal);
    assert(record@ =~= old(record)@ + record_array(kind, nal@));
}

/// Build a `HEVCDecoderConfigurationRecord` (hvcC).
pub fn decoder_configuration_record(vps: &[u8], sps: &[u8], pps: &[u8]) -> (record: Result<
    Vec<u8>,
    &'static str,
>)
    ensures
        match record {
            Ok(bytes) => raw_bytes(sps@).len() >= 13 && bytes@ == configuration_record(
                raw_bytes(sps@),
                vps@,
                sps@,
                pps@,
            ),
            Err(reason) => raw_bytes(sps@).len() < 13 && reason@
                == "SPS too short to contain profile_tier_level"@,
        },
{
    let sps_rbsp = rbsp(sps);
    if sps_rbsp.len() < 13 {
        return Err("SPS too short to contain profile_tier_level");
    }
    let mut record: Vec<u8> = Vec::new();
    record.push(1);  // configurationVersion
    // profile_space(2) | tier_flag(1) | profile_idc(5), then the compatibility
    // flags, the constraint indicator flags and the level.
    wire::append(&mut record, &sps_rbsp[1..13]);
    record.push(0xF0);  // reserved | min_spatial_segmentation_idc=0
    record.push(0x00);
    record.push(0xFC);  // reserved | parallelismType=0
    record.push(0xFD);  // reserved | chroma_format_idc=1 (4:2:0)
    record.push(0xF8);  // reserved | bit_depth_luma_minus8=0
    record.push(0xF8);  // reserved | bit_depth_chroma_minus8=0
    record.push(0);  // avgFrameRate=0 (unspecified)
    record.push(0);
    // constantFrameRate(2)=0 | numTemporalLayers(3)=1 | temporalIdNested(1)=0
    // | lengthSizeMinusOne(2)=3
    record.push(0x0B);
    record.push(3);  // numOfArrays: VPS, SPS, PPS
    let ghost head = record@;
    push_record_array(&mut record, NAL_VPS, vps);
    push_record_array(&mut record, NAL_SPS, sps);
    push_record_array(&mut record, NAL_PPS, pps);
    assert(head =~= seq![1u8] + sps_rbsp@.subrange(1, 13) + seq![
        0xF0u8,
        0x00u8,
        0xFCu8,
        0xFDu8,
        0xF8u8,
        0xF8u8,
        0u8,
        0u8,
        0x0Bu8,
        3u8,
    ]);
    Ok(record)
}

/// Concatenate NAL units into the hvcC sample format.
pub fn pack_access_unit(nals: &[Vec<u8>]) -> (data: Vec<u8>)
    ensures
        data@ == video::packed(units(nals@)),
{
    let mut data: Vec<u8> = Vec::new();
    let mut i: usize = 0;
    assert(data@ =~= video::packed(units(nals@).take(0)));
    while i < nals.len()
        invariant
            i <= nals.len(),
            data@ == video::packed(units(nals@).take(i as int)),
        decreases nals.len() - i,
    {
        let ghost more = units(nals@).take(i + 1);
        wire::push_be32(&mut data, (nals[i].len() as u64 % 0x1_0000_0000) as u32);
        wire::append(&mut data, &nals[i]);
        assert(more.drop_last() =~= units(nals@).take(i as int));
        assert(more.last() == nals@[i as int]@);
        i += 1;
    }
    assert(units(nals@).take(i as int) =~= units(nals@));
    data
}

/// The parameter sets needed to describe the stream to a decoder.
#[derive(Clone)]
pub struct ParameterSets {
    pub vps: Option<Vec<u8>>,
    pub sps: Option<Vec<u8>>,
    pub pps: Option<Vec<u8>>,
    pub codec_string: Option<String>,
    /// Encoded frame size, which is the only display geometry available on
    /// current iOS versions.
    pub dimensions: Option<(i64, i64)>,
}

/// What a set of parameter sets holds.
#[verifier::ext_equal]
pub struct ParameterSetsView {
    pub vps: Option<Seq<u8>>,
    pub sps: Option<Seq<u8>>,
    pub pps: Option<Seq<u8>>,
    pub codec_string: Option<Seq<char>>,
    pub dimensions: Option<(i64, i64)>,
}

impl View for ParameterSets {
    type V = ParameterSetsView;

    open spec fn view(&self) -> ParameterSetsView {
        ParameterSetsView {
            vps: bytes_in(self.vps),
            sps: bytes_in(self.sps),
            pps: bytes_in(self.pps),
            codec_string: text::text_in(self.codec_string),
            dimensions: self.dimensions,
        }
    }
}

impl ParameterSetsView {
    /// The parameter sets after a NAL unit has been looked at. The first
    /// sequence parameter set that gives a frame size, and the first that gives
    /// a codec name, decide it for the whole stream.
    pub open spec fn after(self, nal: Seq<u8>) -> ParameterSetsView {
        let kind = nal_type_of(nal);
        if kind == NAL_VPS {
            ParameterSetsView { vps: Some(nal), ..self }
        } else if kind == NAL_PPS {
            ParameterSetsView { pps: Some(nal), ..self }
        } else if kind == NAL_SPS {
            ParameterSetsView {
                sps: Some(nal),
                dimensions: match self.dimensions {
                    Some(size) => Some(size),
                    None => match frame_size(nal) {
                        Some((width, height)) => Some((width as i64, height as i64)),
                        None => None,
                    },
                },
                codec_string: match self.codec_string {
                    Some(codec) => Some(codec),
                    None => if raw_bytes(nal).len() >= 13 {
                        Some(codec_text(raw_bytes(nal)))
                    } else {
                        None
                    },
                },
                ..self
            }
        } else {
            self
        }
    }

    pub open spec fn complete(self) -> bool {
        self.vps is Some && self.sps is Some && self.pps is Some && self.codec_string is Some
    }

    /// The codec name and the configuration record, once every parameter set is
    /// known and the sequence parameter set is long enough for a record.
    pub open spec fn described(self) -> Option<(Seq<char>, Seq<u8>)> {
        if self.complete() && raw_bytes(self.sps->0).len() >= 13 {
            Some(
                (
                    self.codec_string->0,
                    configuration_record(
                        raw_bytes(self.sps->0),
                        self.vps->0,
                        self.sps->0,
                        self.pps->0,
                    ),
                ),
            )
        } else {
            None
        }
    }
}

impl Default for ParameterSets {
    fn default() -> (sets: Self)
        ensures
            sets@ == (ParameterSetsView {
                vps: None,
                sps: None,
                pps: None,
                codec_string: None,
                dimensions: None,
            }),
    {
        ParameterSets { vps: None, sps: None, pps: None, codec_string: None, dimensions: None }
    }
}

impl ParameterSets {
    /// Record a NAL if it is a parameter set. Returns true if it was consumed.
    pub fn observe(&mut self, nal: &[u8]) -> (consumed: bool)
        requires
            nal@.len() > 0,
        ensures
            final(self)@ == old(self)@.after(nal@),
            consumed == (nal_type_of(nal@) == NAL_VPS || nal_type_of(nal@) == NAL_SPS
                || nal_type_of(nal@) == NAL_PPS),
    {
        let kind: u8 = nal_type(nal);
        if kind == NAL_VPS {
            self.vps = Some(vstd::slice::slice_to_vec(nal));
        } else if kind == NAL_PPS {
            self.pps = Some(vstd::slice::slice_to_vec(nal));
        } else if kind == NAL_SPS {
            self.sps = Some(vstd::slice::slice_to_vec(nal));
            if self.dimensions.is_none() {
                self.dimensions = dimensions_from_sps(nal);
            }
            if self.codec_string.is_none() {
                match codec_string_from_sps(nal) {
                    Ok(codec) => {
                        self.codec_string = Some(codec);
                    },
                    Err(_) => {},
                }
            }
        } else {
            return false;
        }
        true
    }

    pub fn is_complete(&self) -> (complete: bool)
        ensures
            complete == self@.complete(),
    {
        self.vps.is_some() && self.sps.is_some() && self.pps.is_some()
            && self.codec_string.is_some()
    }

    /// `(codec string, hvcC record)` once every parameter set has been seen.
    pub fn description(&self) -> (description: Option<(String, Vec<u8>)>)
        ensures
            match description {
                Some((codec, record)) => self@.described() == Some((codec@, record@)),
                None => self@.described() is None,
            },
    {
        match (&self.vps, &self.sps, &self.pps, &self.codec_string) {
            (Some(vps), Some(sps), Some(pps), Some(codec)) => {
                match decoder_configuration_record(vps, sps, pps) {
                    Ok(record) => Some((codec.clone(), record)),
                    Err(_) => None,
                }
            },
            _ => None,
        }
    }
}

/// What a run of payloads does to a depacketizer: the fragment in hand after
/// them, and all the NAL units that they complete.
pub open spec fn depacketized_all(fragment: Option<Seq<u8>>, payloads: Seq<Seq<u8>>) -> (
    Option<Seq<u8>>,
    Seq<Seq<u8>>,
)
    decreases payloads.len(),
{
    if payloads.len() == 0 {
        (fragment, Seq::empty())
    } else {
        let before = depacketized_all(fragment, payloads.drop_last());
        let here = depacketized(before.0, payloads.last());
        (here.0, before.1 + here.1)
    }
}

/// The bytes of `pieces`, one after the other.
pub open spec fn joined(pieces: Seq<Seq<u8>>) -> Seq<u8>
    decreases pieces.len(),
{
    if pieces.len() == 0 {
        Seq::empty()
    } else {
        joined(pieces.drop_last()) + pieces.last()
    }
}

/// Fragment `i` of `count` of the NAL unit with this header, carrying `piece`.
pub open spec fn fragment_of(header: Seq<u8>, piece: Seq<u8>, i: int, count: int) -> Seq<u8> {
    let first = if i == 0 {
        0x80u8
    } else {
        0u8
    };
    let last = if i == count - 1 {
        0x40u8
    } else {
        0u8
    };
    seq![(header[0] & 0x81) | 0x62, header[1], nal_type_of(header) | first | last] + piece
}

proof fn lemma_fragment_bits(header: u8, first: u8, last: u8)
    requires
        first == 0 || first == 0x80,
        last == 0 || last == 0x40,
    ensures
        ({
            let p0 = (header & 0x81) | 0x62;
            let p2 = ((header >> 1) & 0x3f) | first | last;
            &&& (p0 >> 1) & 0x3f == 49
            &&& (p2 & 0x80 != 0) == (first != 0)
            &&& (p2 & 0x40 != 0) == (last != 0)
            &&& (p0 & 0x81) | ((p2 & 0x3f) << 1u8) == header
        }),
{
    let p0 = (header & 0x81) | 0x62;
    let p2 = ((header >> 1) & 0x3f) | first | last;
    assert((p0 >> 1) & 0x3f == 49 && (p2 & 0x80 != 0) == (first != 0) && (p2 & 0x40 != 0) == (last
        != 0) && (p0 & 0x81) | ((p2 & 0x3f) << 1u8) == header) by (bit_vector)
        requires
            first == 0 || first == 0x80,
            last == 0 || last == 0x40,
            p0 == (header & 0x81) | 0x62,
            p2 == ((header >> 1) & 0x3f) | first | last,
    ;
}

/// A NAL unit that was cut into fragments comes out as it was, with its own
/// header and without the footer, when the last fragment has arrived and not
/// before, whatever was in hand when the first did.
pub proof fn law_fragments_reassemble(
    fragment: Option<Seq<u8>>,
    header: Seq<u8>,
    pieces: Seq<Seq<u8>>,
    sent: int,
)
    requires
        header.len() == 2,
        1 <= sent <= pieces.len(),
    ensures
        ({
            let count = pieces.len() as int;
            let payloads = Seq::new(
                sent as nat,
                |i: int| fragment_of(header, pieces[i], i, count),
            );
            depacketized_all(fragment, payloads) == if sent == count {
                (None::<Seq<u8>>, seq![without_trailer(header + joined(pieces))])
            } else {
                (Some(header + joined(pieces.take(sent))), Seq::<Seq<u8>>::empty())
            }
        }),
    decreases sent,
{
    let count = pieces.len() as int;
    let payloads = Seq::new(sent as nat, |i: int| fragment_of(header, pieces[i], i, count));
    let i = sent - 1;
    let first = if i == 0 {
        0x80u8
    } else {
        0u8
    };
    let last = if i == count - 1 {
        0x40u8
    } else {
        0u8
    };
    lemma_fragment_bits(header[0], first, last);
    let payload = payloads.last();
    assert(payload == fragment_of(header, pieces[i], i, count));
    assert(payload.subrange(3, payload.len() as int) =~= pieces[i]);
    let before = Seq::new(i as nat, |i: int| fragment_of(header, pieces[i], i, count));
    assert(payloads.drop_last() =~= before);
    assert(pieces.take(sent).drop_last() =~= pieces.take(i));
    assert(pieces.take(sent).last() == pieces[i]);
    assert(joined(pieces.take(sent)) == joined(pieces.take(i)) + pieces[i]);
    if i == 0 {
        assert(before =~= Seq::<Seq<u8>>::empty());
        assert(original_header(payload) =~= header);
        assert(pieces.take(0) =~= Seq::<Seq<u8>>::empty());
        assert(header + pieces[0] =~= header + joined(pieces.take(1)));
    } else {
        law_fragments_reassemble(fragment, header, pieces, i);
        assert(header + joined(pieces.take(i)) + pieces[i] =~= header + joined(
            pieces.take(sent),
        ));
    }
    if sent == count {
        assert(pieces.take(sent) =~= pieces);
    }
    assert(Seq::<Seq<u8>>::empty() + depacketized(
        depacketized_all(fragment, before).0,
        payload,
    ).1 =~= depacketized(depacketized_all(fragment, before).0, payload).1);
}

/// After a reset no fragment is ever stitched to one from before it: until a
/// start fragment arrives, fragments leave nothing in hand and complete nothing.
pub proof fn law_never_stitches_across_a_gap(payloads: Seq<Seq<u8>>)
    requires
        forall|i: int|
            0 <= i < payloads.len() ==> (#[trigger] payloads[i]).len() >= 3 && nal_type_of(
                payloads[i],
            ) == NAL_FU && !fragment_starts(payloads[i]),
    ensures
        depacketized_all(None, payloads) == (None::<Seq<u8>>, Seq::<Seq<u8>>::empty()),
    decreases payloads.len(),
{
    if payloads.len() > 0 {
        assert forall|i: int| 0 <= i < payloads.drop_last().len() implies (
        #[trigger] payloads.drop_last()[i]).len() >= 3 && nal_type_of(payloads.drop_last()[i])
            == NAL_FU && !fragment_starts(payloads.drop_last()[i]) by {
            assert(payloads.drop_last()[i] == payloads[i]);
        }
        law_never_stitches_across_a_gap(payloads.drop_last());
        assert(payloads.last() == payloads[payloads.len() - 1]);
        assert(Seq::<Seq<u8>>::empty() + Seq::<Seq<u8>>::empty() =~= Seq::<Seq<u8>>::empty());
    }
}

/// An aggregation packet's content: each unit behind its two-byte length.
pub open spec fn aggregate(nals: Seq<Seq<u8>>) -> Seq<u8>
    decreases nals.len(),
{
    if nals.len() == 0 {
        Seq::empty()
    } else {
        wire::be16(nals[0].len() as u16) + nals[0] + aggregate(nals.drop_first())
    }
}

proof fn lemma_aggregate_splits(before: Seq<u8>, nals: Seq<Seq<u8>>)
    requires
        forall|i: int| 0 <= i < nals.len() ==> 0 < (#[trigger] nals[i]).len() <= u16::MAX,
    ensures
        aggregated(before + aggregate(nals), before.len() as int) == nals.map_values(
            |nal: Seq<u8>| without_trailer(nal),
        ),
    decreases nals.len(),
{
    let strip = |nal: Seq<u8>| without_trailer(nal);
    let payload = before + aggregate(nals);
    let at = before.len() as int;
    if nals.len() == 0 {
        assert(nals.map_values(strip) =~= Seq::<Seq<u8>>::empty());
    } else {
        let nal = nals[0];
        let rest = nals.drop_first();
        let length = wire::be16(nal.len() as u16);
        assert forall|i: int| 0 <= i < rest.len() implies 0 < (#[trigger] rest[i]).len()
            <= u16::MAX by {
            assert(rest[i] == nals[i + 1]);
        }
        assert(payload =~= before + length + (nal + aggregate(rest)));
        wire::law_be16_reads_back(nal.len() as u16, before, nal + aggregate(rest));
        assert(payload =~= (before + length + nal) + aggregate(rest));
        assert(payload.subrange(at + 2, at + 2 + nal.len()) =~= nal);
        lemma_aggregate_splits(before + length + nal, rest);
        assert((before + length + nal).len() == at + 2 + nal.len());
        assert(nals.map_values(strip) =~= seq![without_trailer(nal)] + rest.map_values(strip));
    }
}

/// The units of an aggregation packet come out one by one, in order.
pub proof fn law_aggregation_splits(
    fragment: Option<Seq<u8>>,
    header: Seq<u8>,
    nals: Seq<Seq<u8>>,
)
    requires
        header.len() == 2,
        nal_type_of(header) == NAL_AP,
        forall|i: int| 0 <= i < nals.len() ==> 0 < (#[trigger] nals[i]).len() <= u16::MAX,
    ensures
        depacketized(fragment, header + aggregate(nals)) == (
            fragment,
            nals.map_values(|nal: Seq<u8>| without_trailer(nal)),
        ),
{
    lemma_aggregate_splits(header, nals);
    assert((header + aggregate(nals))[0] == header[0]);
}

/// Once every parameter set is known they stay known, and neither the codec
/// name nor the frame size changes for the rest of the stream.
pub proof fn law_description_is_settled_once(sets: ParameterSetsView, nal: Seq<u8>)
    ensures
        sets.complete() ==> sets.after(nal).complete(),
        sets.codec_string is Some ==> sets.after(nal).codec_string == sets.codec_string,
        sets.dimensions is Some ==> sets.after(nal).dimensions == sets.dimensions,
{
}

/// Raw bytes with escape bytes put in, where `zeros` zeros come before them: no
/// two zeros are followed by a byte that could make a start code of them.
pub open spec fn escaped(zeros: int, raw: Seq<u8>) -> Seq<u8>
    decreases raw.len(),
{
    if raw.len() == 0 {
        Seq::empty()
    } else {
        let byte = raw[0];
        let rest = raw.drop_first();
        if zeros >= 2 && byte <= 3 {
            seq![3u8, byte] + escaped(
                if byte == 0 {
                    1
                } else {
                    0
                },
                rest,
            )
        } else {
            seq![byte] + escaped(
                if byte == 0 {
                    zeros + 1
                } else {
                    0
                },
                rest,
            )
        }
    }
}

proof fn lemma_unescaped_step(byte: u8, rest: Seq<u8>)
    requires
        !(byte == 0 && rest.len() >= 2 && rest[0] == 0 && rest[1] == 3),
    ensures
        unescaped(seq![byte] + rest) == seq![byte] + unescaped(rest),
{
    let s = seq![byte] + rest;
    assert(s.subrange(1, s.len() as int) =~= rest);
}

proof fn lemma_unescaped(zeros: int, raw: Seq<u8>)
    requires
        0 <= zeros <= 2,
    ensures
        unescaped(Seq::new(zeros as nat, |i: int| 0u8) + escaped(zeros, raw)) == Seq::new(
            zeros as nat,
            |i: int| 0u8,
        ) + raw,
    decreases raw.len(),
{
    let run = Seq::new(zeros as nat, |i: int| 0u8);
    let code = escaped(zeros, raw);
    let none = Seq::<u8>::empty();
    if raw.len() == 0 {
        assert(run + code =~= run);
        assert(run + raw =~= run);
        assert(unescaped(none) =~= none);
        if zeros >= 1 {
            lemma_unescaped_step(0, none);
            assert(seq![0u8] + none =~= seq![0u8]);
        }
        if zeros == 2 {
            lemma_unescaped_step(0, seq![0u8]);
            assert(run =~= seq![0u8] + seq![0u8]);
        } else if zeros == 1 {
            assert(run =~= seq![0u8]);
        } else {
            assert(run =~= none);
        }
    } else {
        let byte = raw[0];
        let rest = raw.drop_first();
        assert(raw =~= seq![byte] + rest);
        if byte == 0 && zeros < 2 {
            let longer = Seq::new((zeros + 1) as nat, |i: int| 0u8);
            lemma_unescaped(zeros + 1, rest);
            assert(run + code =~= longer + escaped(zeros + 1, rest));
            assert(run + raw =~= longer + rest);
        } else {
            let after = if byte == 0 {
                1int
            } else {
                0
            };
            let tail = escaped(after, rest);
            let one = Seq::new(after as nat, |i: int| 0u8);
            lemma_unescaped(after, rest);
            let from_byte = seq![byte] + tail;
            // What follows an escape byte is read afresh.
            assert(unescaped(from_byte) == seq![byte] + rest) by {
                if byte == 0 {
                    assert(one + tail =~= from_byte);
                    assert(one + rest =~= seq![byte] + rest);
                } else {
                    assert(one + tail =~= tail);
                    assert(one + rest =~= rest);
                    lemma_unescaped_step(byte, tail);
                }
            }
            if zeros == 2 && byte <= 3 {
                let s = run + code;
                assert(s =~= seq![0u8, 0u8, 3u8] + from_byte);
                assert(s.subrange(3, s.len() as int) =~= from_byte);
                assert(unescaped(s) =~= seq![0u8, 0u8] + unescaped(from_byte));
                assert(run + raw =~= seq![0u8, 0u8] + (seq![byte] + rest));
            } else {
                assert(code =~= from_byte);
                if zeros >= 1 {
                    lemma_unescaped_step(0, from_byte);
                }
                if zeros == 2 {
                    lemma_unescaped_step(0, seq![0u8] + from_byte);
                    assert(run + code =~= seq![0u8] + (seq![0u8] + from_byte));
                    assert(run + raw =~= seq![0u8] + (seq![0u8] + raw));
                } else if zeros == 1 {
                    assert(run + code =~= seq![0u8] + from_byte);
                    assert(run + raw =~= seq![0u8] + raw);
                } else {
                    assert(run + code =~= from_byte);
                    assert(run + raw =~= raw);
                }
            }
        }
    }
}

/// The escape bytes that an encoder puts in come out again: what is read of a
/// NAL unit are the raw bytes that went into it.
pub proof fn law_escape_bytes_come_out_again(header: Seq<u8>, raw: Seq<u8>)
    requires
        header.len() == 2,
    ensures
        raw_bytes(header + escaped(0, raw)) == raw,
{
    let nal = header + escaped(0, raw);
    lemma_unescaped(0, raw);
    let run = Seq::new(0, |i: int| 0u8);
    assert(run + escaped(0, raw) =~= escaped(0, raw));
    assert(run + raw =~= raw);
    assert(nal.subrange(2, nal.len() as int) =~= escaped(0, raw));
    if nal.len() <= 2 {
        assert(escaped(0, raw).len() == 0);
        assert(raw.len() == 0);
        assert(raw =~= Seq::<u8>::empty());
    }
}

/// What is read of the start of a NAL unit is the start of what is read of it.
proof fn lemma_unescaped_prefix(s: Seq<u8>, n: int)
    requires
        0 <= n <= s.len(),
    ensures
        unescaped(s.take(n)).is_prefix_of(unescaped(s)),
    decreases s.len(),
{
    let cut = s.take(n);
    if s.len() > 0 && n > 0 {
        if s.len() >= 3 && s[0] == 0 && s[1] == 0 && s[2] == 3 {
            if n >= 3 {
                let rest = s.subrange(3, s.len() as int);
                assert(cut.subrange(3, n) =~= rest.take(n - 3));
                lemma_unescaped_prefix(rest, n - 3);
                assert(unescaped(cut) =~= seq![0u8, 0u8] + unescaped(rest.take(n - 3)));
                assert(unescaped(s) =~= seq![0u8, 0u8] + unescaped(rest));
            } else {
                let none = Seq::<u8>::empty();
                assert(unescaped(none) =~= none);
                lemma_unescaped_step(0, none);
                assert(seq![0u8] + none =~= seq![0u8]);
                lemma_unescaped_step(0, seq![0u8]);
                if n == 1 {
                    assert(cut =~= seq![0u8]);
                } else {
                    assert(cut =~= seq![0u8] + seq![0u8]);
                }
            }
        } else {
            let rest = s.subrange(1, s.len() as int);
            assert(cut.subrange(1, n) =~= rest.take(n - 1));
            lemma_unescaped_prefix(rest, n - 1);
            assert(unescaped(cut) =~= seq![s[0]] + unescaped(rest.take(n - 1)));
            assert(unescaped(s) =~= seq![s[0]] + unescaped(rest));
        }
    }
}

proof fn lemma_same_bits(short: Seq<u8>, long: Seq<u8>, pos: int, count: nat)
    requires
        short.is_prefix_of(long),
        0 <= pos,
        pos + count <= 8 * short.len(),
    ensures
        bits_value(short, pos, count) == bits_value(long, pos, count),
    decreases count,
{
    if count > 0 {
        lemma_same_bits(short, long, pos, (count - 1) as nat);
        lemma_same_bit(short, long, pos + count - 1);
    }
}

proof fn lemma_same_bit(short: Seq<u8>, long: Seq<u8>, i: int)
    requires
        short.is_prefix_of(long),
        0 <= i < 8 * short.len(),
    ensures
        bit_at(short, i) == bit_at(long, i),
{
    assert(short[i / 8] == long[i / 8]);
}

/// Where the bits after the exp-Golomb number at `pos` start.
spec fn golomb_end(data: Seq<u8>, pos: int) -> int {
    match golomb_at(data, pos) {
        Some((_, next)) => next,
        None => pos,
    }
}

proof fn lemma_same_golomb(short: Seq<u8>, long: Seq<u8>, pos: int)
    requires
        short.is_prefix_of(long),
        0 <= pos,
        golomb_at(short, pos) is Some,
        golomb_end(short, pos) <= 8 * short.len(),
    ensures
        golomb_at(long, pos) == golomb_at(short, pos),
{
    let zeros = choose|zeros: int| zeros <= 32 && zeros_then_one(short, pos, zeros);
    assert(zeros_then_one(short, pos, zeros));
    lemma_same_bit(short, long, pos + zeros);
    assert forall|k: int| pos <= k < pos + zeros implies #[trigger] bit_at(long, k) == 0 by {
        lemma_same_bit(short, long, k);
        assert(bit_at(short, k) == 0);
    }
    assert(zeros_then_one(long, pos, zeros));
    let other = choose|zeros: int| zeros <= 32 && zeros_then_one(long, pos, zeros);
    lemma_first_one(long, pos, zeros, other);
    lemma_same_bits(short, long, pos + zeros + 1, zeros as nat);
}

proof fn lemma_same_sub_layers(short: Seq<u8>, long: Seq<u8>, count: nat)
    requires
        short.is_prefix_of(long),
        104 + 2 * count <= 8 * short.len(),
    ensures
        sub_layer_bits(short, count) == sub_layer_bits(long, count),
    decreases count,
{
    if count > 0 {
        let i = count - 1;
        lemma_same_sub_layers(short, long, i as nat);
        lemma_same_bit(short, long, 104 + 2 * i);
        lemma_same_bit(short, long, 104 + 2 * i + 1);
    }
}

proof fn lemma_sub_layer_bits(rb: Seq<u8>, count: nat)
    ensures
        sub_layer_bits(rb, count) >= 0,
    decreases count,
{
    if count > 0 {
        lemma_sub_layer_bits(rb, (count - 1) as nat);
    }
}

/// A parameter set that was cut off gives no frame size, or the one that it
/// gives whole: a size is never made up out of what is missing.
pub proof fn law_a_cut_set_gives_no_wrong_size(sps: Seq<u8>, n: int)
    requires
        0 <= n <= sps.len(),
    ensures
        frame_size(sps.take(n)) is Some ==> frame_size(sps.take(n)) == frame_size(sps),
{
    let cut = sps.take(n);
    if frame_size(cut) is Some {
        let short = raw_bytes(cut);
        let long = raw_bytes(sps);
        assert(short.is_prefix_of(long)) by {
            if n > 2 {
                let body = sps.subrange(2, sps.len() as int);
                assert(cut.subrange(2, n) =~= body.take(n - 2));
                lemma_unescaped_prefix(body, n - 2);
            }
        }
        let start = size_fields_at(short);
        let sub_layers = bits_value(short, 4, 3);
        lemma_sub_layer_bits(short, sub_layers as nat);
        let chroma_at = golomb_end(short, start);
        let after = golomb_end(short, chroma_at);
        let width_at = if golomb_at(short, chroma_at) == Some((3int, after)) {
            after + 1
        } else {
            after
        };
        let height_at = golomb_end(short, width_at);
        let end = golomb_end(short, height_at);
        lemma_golomb_end(short, start);
        lemma_golomb_end(short, chroma_at);
        lemma_golomb_end(short, width_at);
        lemma_golomb_end(short, height_at);
        assert(end <= 8 * short.len());
        lemma_same_bits(short, long, 4, 3);
        lemma_bits_bound(short, 4, 3);
        vstd::arithmetic::power2::lemma2_to64();
        assert(0 <= sub_layers <= 7);
        lemma_same_sub_layers(short, long, sub_layers as nat);
        lemma_same_golomb(short, long, start);
        lemma_same_golomb(short, long, chroma_at);
        lemma_same_golomb(short, long, width_at);
        lemma_same_golomb(short, long, height_at);
    }
}

proof fn lemma_golomb_end(rb: Seq<u8>, pos: int)
    ensures
        golomb_end(rb, pos) >= pos,
{
}

/// The NAL unit types that a stream is told by.
pub proof fn law_units_have_the_standards_numbers()
    ensures
        NAL_IDR_W_RADL == 19,
        NAL_IDR_N_LP == 20,
        NAL_CRA == 21,
        NAL_VPS == 32,
        NAL_SPS == 33,
        NAL_PPS == 34,
        NAL_AP == 48,
        NAL_FU == 49,
{
}

/// An array of a configuration record, which is one unit behind its type, the number
/// one and its length, reads back.
proof fn lemma_record_array(before: Seq<u8>, kind: u8, nal: Seq<u8>, after: Seq<u8>)
    requires
        nal.len() < 0x1_0000,
    ensures
        ({
            let whole = before + record_array(kind, nal) + after;
            let at = before.len() as int;
            &&& whole[at] == kind
            &&& wire::be16_at(whole, at + 1) == 1
            &&& wire::be16_at(whole, at + 3) == nal.len()
            &&& whole.subrange(at + 5, at + 5 + nal.len()) == nal
        }),
{
    let whole = before + record_array(kind, nal) + after;
    let (one, length) = (wire::be16(1), wire::be16(nal.len() as u16));
    assert(whole =~= (before + seq![kind]) + one + (length + nal + after));
    wire::law_be16_reads_back(1, before + seq![kind], length + nal + after);
    assert(whole =~= (before + seq![kind] + one) + length + (nal + after));
    wire::law_be16_reads_back(nal.len() as u16, before + seq![kind] + one, nal + after);
    let at = before.len() as int;
    assert(whole.subrange(at + 5, at + 5 + nal.len()) =~= nal);
}

/// A configuration record holds the parameter sets that it was made of. It starts with
/// its version, repeats the profile, tier and level of the set for the sequence, says
/// that lengths take four bytes, and has three arrays of one unit each.
pub proof fn law_a_record_holds_its_sets(
    rb: Seq<u8>,
    vps: Seq<u8>,
    sps: Seq<u8>,
    pps: Seq<u8>,
)
    requires
        rb.len() >= 13,
        vps.len() < 0x1_0000,
        sps.len() < 0x1_0000,
        pps.len() < 0x1_0000,
    ensures
        ({
            let record = configuration_record(rb, vps, sps, pps);
            let second = (28 + vps.len()) as int;
            let third = second + 5 + sps.len();
            &&& record.len() == 38 + vps.len() + sps.len() + pps.len()
            &&& record[0] == 1
            &&& record.subrange(1, 13) == rb.subrange(1, 13)
            &&& record[21] % 4 == 3
            &&& record[22] == 3
            &&& record[23] == 32 && record[second] == 33 && record[third] == 34
            &&& wire::be16_at(record, 24) == 1
            &&& wire::be16_at(record, 26) == vps.len()
            &&& record.subrange(28, second) == vps
            &&& wire::be16_at(record, second + 1) == 1
            &&& wire::be16_at(record, second + 3) == sps.len()
            &&& record.subrange(second + 5, third) == sps
            &&& wire::be16_at(record, third + 1) == 1
            &&& wire::be16_at(record, third + 3) == pps.len()
            &&& record.subrange(third + 5, third + 5 + pps.len()) == pps
        }),
{
    let record = configuration_record(rb, vps, sps, pps);
    let fixed = seq![
        0xF0u8,
        0x00u8,
        0xFCu8,
        0xFDu8,
        0xF8u8,
        0xF8u8,
        0u8,
        0u8,
        0x0Bu8,
        3u8,
    ];
    let head = seq![1u8] + rb.subrange(1, 13) + fixed;
    let (a, b, c) = (
        record_array(NAL_VPS, vps),
        record_array(NAL_SPS, sps),
        record_array(NAL_PPS, pps),
    );
    assert(head.len() == 23);
    assert(head[0] == 1 && head[21] == 0x0B && head[22] == 3);
    assert(head.subrange(1, 13) =~= rb.subrange(1, 13));
    assert(record == head + a + b + c);
    lemma_three_arrays(head, vps, sps, pps);
    assert(0x0Bu8 % 4 == 3);
}

/// The three arrays of a configuration record read back, whatever stands before them.
proof fn lemma_three_arrays(head: Seq<u8>, vps: Seq<u8>, sps: Seq<u8>, pps: Seq<u8>)
    requires
        head.len() == 23,
        vps.len() < 0x1_0000,
        sps.len() < 0x1_0000,
        pps.len() < 0x1_0000,
    ensures
        ({
            let record = head + record_array(NAL_VPS, vps) + record_array(NAL_SPS, sps)
                + record_array(NAL_PPS, pps);
            let second = (28 + vps.len()) as int;
            let third = second + 5 + sps.len();
            &&& record.len() == 38 + vps.len() + sps.len() + pps.len()
            &&& record[0] == head[0] && record[21] == head[21] && record[22] == head[22]
            &&& record.subrange(1, 13) == head.subrange(1, 13)
            &&& record[23] == 32 && record[second] == 33 && record[third] == 34
            &&& wire::be16_at(record, 24) == 1
            &&& wire::be16_at(record, 26) == vps.len()
            &&& record.subrange(28, second) == vps
            &&& wire::be16_at(record, second + 1) == 1
            &&& wire::be16_at(record, second + 3) == sps.len()
            &&& record.subrange(second + 5, third) == sps
            &&& wire::be16_at(record, third + 1) == 1
            &&& wire::be16_at(record, third + 3) == pps.len()
            &&& record.subrange(third + 5, third + 5 + pps.len()) == pps
        }),
{
    let (a, b, c) = (
        record_array(NAL_VPS, vps),
        record_array(NAL_SPS, sps),
        record_array(NAL_PPS, pps),
    );
    assert(a.len() == 5 + vps.len() && b.len() == 5 + sps.len() && c.len() == 5 + pps.len());
    lemma_record_array(head, NAL_VPS, vps, b + c);
    lemma_record_array(head + a, NAL_SPS, sps, c);
    lemma_record_array(head + a + b, NAL_PPS, pps, Seq::empty());
    lemma_joined(head, a, b, c);
    let record = head + a + b + c;
    assert(record.subrange(1, 13) =~= head.subrange(1, 13));
}

proof fn lemma_joined(head: Seq<u8>, a: Seq<u8>, b: Seq<u8>, c: Seq<u8>)
    ensures
        head + a + (b + c) == head + a + b + c,
        head + a + b + c + Seq::<u8>::empty() == head + a + b + c,
{
    assert(head + a + (b + c) =~= head + a + b + c);
    assert(head + a + b + c + Seq::<u8>::empty() =~= head + a + b + c);
}

/// The names of a codec's fields by the bytes that hold them.
pub proof fn law_the_codec_is_named_by_its_bytes(rb: Seq<u8>)
    requires
        rb.len() >= 13,
    ensures
        bits_value(rb, 8, 2) == rb[1] / 64,
        bits_value(rb, 10, 1) == rb[1] / 32 % 2,
        bits_value(rb, 11, 5) == rb[1] % 32,
        bits_value(rb, 96, 8) == rb[12],
        ({
            let space = rb[1] / 64;
            let start = "hev1."@ + (if space == 0 {
                ""@
            } else if space == 1 {
                "A"@
            } else if space == 2 {
                "B"@
            } else {
                "C"@
            }) + text::decimal((rb[1] % 32) as nat) + "."@;
            let tier = if rb[1] / 32 % 2 == 1 {
                "H"@
            } else {
                "L"@
            };
            codec_text(rb) == start + text::hex(reversed_bits_value(rb, 16, 32) as nat, 0, true)
                + "."@ + tier + text::decimal(rb[12] as nat) + "."@ + without_zero_pairs(
                text::hex(bits_value(rb, 48, 48) as nat, 12, true),
            )
        }),
{
    lemma_byte(rb, 1);
    lemma_byte(rb, 12);
    lemma_few_bits(rb, 8, 2);
    lemma_few_bits(rb, 10, 1);
    lemma_few_bits(rb, 11, 5);
    lemma_few_bits(rb, 96, 8);
    lemma_eight_bits(rb[1] as int);
    lemma_eight_bits(rb[12] as int);
}

/// Up to eight bits as a number.
proof fn lemma_few_bits(rb: Seq<u8>, pos: int, count: nat)
    requires
        1 <= count <= 8,
    ensures
        count == 1 ==> bits_value(rb, pos, 1) == bit_at(rb, pos),
        count == 2 ==> bits_value(rb, pos, 2) == 2 * bit_at(rb, pos) + bit_at(rb, pos + 1),
        count == 5 ==> bits_value(rb, pos, 5) == 16 * bit_at(rb, pos) + 8 * bit_at(rb, pos + 1) + 4
            * bit_at(rb, pos + 2) + 2 * bit_at(rb, pos + 3) + bit_at(rb, pos + 4),
        count == 8 ==> bits_value(rb, pos, 8) == 128 * bit_at(rb, pos) + 64 * bit_at(rb, pos + 1)
            + 32 * bit_at(rb, pos + 2) + 16 * bit_at(rb, pos + 3) + 8 * bit_at(rb, pos + 4) + 4
            * bit_at(rb, pos + 5) + 2 * bit_at(rb, pos + 6) + bit_at(rb, pos + 7),
{
    let one = bits_value(rb, pos, 1);
    let two = bits_value(rb, pos, 2);
    let three = bits_value(rb, pos, 3);
    let four = bits_value(rb, pos, 4);
    let five = bits_value(rb, pos, 5);
    let six = bits_value(rb, pos, 6);
    let seven = bits_value(rb, pos, 7);
    assert(bits_value(rb, pos, 0) == 0);
    assert(one == bit_at(rb, pos));
    assert(two == 2 * one + bit_at(rb, pos + 1));
    assert(three == 2 * two + bit_at(rb, pos + 2));
    assert(four == 2 * three + bit_at(rb, pos + 3));
    assert(five == 2 * four + bit_at(rb, pos + 4));
    assert(six == 2 * five + bit_at(rb, pos + 5));
    assert(seven == 2 * six + bit_at(rb, pos + 6));
    assert(bits_value(rb, pos, 8) == 2 * seven + bit_at(rb, pos + 7));
}

proof fn lemma_eight_bits(x: int)
    requires
        0 <= x < 256,
    ensures
        x == 128 * (x / 128 % 2) + 64 * (x / 64 % 2) + 32 * (x / 32 % 2) + 16 * (x / 16 % 2) + 8 * (
        x / 8 % 2) + 4 * (x / 4 % 2) + 2 * (x / 2 % 2) + x % 2,
{
}

/// The bits of a byte, one by one.
proof fn lemma_byte(rb: Seq<u8>, at: int)
    requires
        0 <= at < rb.len(),
    ensures
        bit_at(rb, 8 * at) == rb[at] / 128 % 2,
        bit_at(rb, 8 * at + 1) == rb[at] / 64 % 2,
        bit_at(rb, 8 * at + 2) == rb[at] / 32 % 2,
        bit_at(rb, 8 * at + 3) == rb[at] / 16 % 2,
        bit_at(rb, 8 * at + 4) == rb[at] / 8 % 2,
        bit_at(rb, 8 * at + 5) == rb[at] / 4 % 2,
        bit_at(rb, 8 * at + 6) == rb[at] / 2 % 2,
        bit_at(rb, 8 * at + 7) == rb[at] % 2,
{
    let b = rb[at];
    assert((b >> 7u8) & 1u8 == b / 128 % 2) by (bit_vector);
    assert((b >> 6u8) & 1u8 == b / 64 % 2) by (bit_vector);
    assert((b >> 5u8) & 1u8 == b / 32 % 2) by (bit_vector);
    assert((b >> 4u8) & 1u8 == b / 16 % 2) by (bit_vector);
    assert((b >> 3u8) & 1u8 == b / 8 % 2) by (bit_vector);
    assert((b >> 2u8) & 1u8 == b / 4 % 2) by (bit_vector);
    assert((b >> 1u8) & 1u8 == b / 2 % 2) by (bit_vector);
    assert((b >> 0u8) & 1u8 == b % 2) by (bit_vector);
    assert((8 * at) / 8 == at && (8 * at) % 8 == 0);
    assert((8 * at + 1) / 8 == at && (8 * at + 2) / 8 == at && (8 * at + 3) / 8 == at);
    assert((8 * at + 4) / 8 == at && (8 * at + 5) / 8 == at && (8 * at + 6) / 8 == at);
    assert((8 * at + 7) / 8 == at);
}

proof fn lemma_bits_split(data: Seq<u8>, pos: int, a: nat, b: nat)
    ensures
        bits_value(data, pos, a + b) == bits_value(data, pos, a)
            * vstd::arithmetic::power2::pow2(b) + bits_value(data, pos + a, b),
    decreases b,
{
    let high = bits_value(data, pos, a);
    if b == 0 {
        vstd::arithmetic::power2::lemma2_to64();
        assert(vstd::arithmetic::power2::pow2(0) == 1);
        assert(a + b == a);
        assert(bits_value(data, pos + a, 0) == 0);
        assert(high * 1 == high);
    } else {
        let less = (b - 1) as nat;
        lemma_bits_split(data, pos, a, less);
        vstd::arithmetic::power2::lemma_pow2_unfold(b);
        let low = bits_value(data, pos + a, less);
        let power = vstd::arithmetic::power2::pow2(less) as int;
        let last = bit_at(data, pos + a + b - 1);
        assert(((a + b) - 1) as nat == a + less);
        assert(pos + (a + b) - 1 == pos + a + b - 1);
        assert(bits_value(data, pos, a + b) == 2 * bits_value(data, pos, a + less) + last);
        assert(bits_value(data, pos + a, b) == 2 * low + last);
        assert(vstd::arithmetic::power2::pow2(b) == 2 * power);
        assert(2 * (high * power + low) == high * (2 * power) + 2 * low) by (nonlinear_arith);
    }
}

proof fn lemma_zero_bits(data: Seq<u8>, pos: int, count: nat)
    requires
        bits_value(data, pos, count) == 0,
    ensures
        forall|k: int| pos <= k < pos + count ==> #[trigger] bit_at(data, k) == 0,
    decreases count,
{
    if count > 0 {
        lemma_bits_bound(data, pos, (count - 1) as nat);
        lemma_bit(data, pos + count - 1);
        lemma_zero_bits(data, pos, (count - 1) as nat);
    }
}

/// Whether the exp-Golomb code of `n` stands at `pos`: one more than it in binary,
/// behind as many zeros as it has digits after its first.
pub open spec fn golomb_stands_at(data: Seq<u8>, pos: int, n: int, zeros: nat) -> bool {
    &&& vstd::arithmetic::power2::pow2(zeros) <= n + 1 < vstd::arithmetic::power2::pow2(zeros + 1)
    &&& bits_value(data, pos, 2 * zeros + 1) == n + 1
}

/// An exp-Golomb number reads back from its code, and what follows it is read from the
/// code's end.
pub proof fn law_golomb_reads_back(data: Seq<u8>, pos: int, n: int, zeros: nat)
    requires
        zeros <= 32,
        golomb_stands_at(data, pos, n, zeros),
    ensures
        golomb_at(data, pos) == Some((n, pos + 2 * zeros + 1)),
{
    let power = vstd::arithmetic::power2::pow2(zeros) as int;
    vstd::arithmetic::power2::lemma_pow2_unfold(zeros + 1);
    lemma_bits_split(data, pos, zeros, zeros + 1);
    assert(zeros + (zeros + 1) == 2 * zeros + 1);
    let high = bits_value(data, pos, zeros);
    let low = bits_value(data, pos + zeros, zeros + 1);
    lemma_bits_bound(data, pos, zeros);
    lemma_bits_bound(data, pos + zeros, zeros + 1);
    vstd::arithmetic::power2::lemma_pow2_pos(zeros);
    assert(vstd::arithmetic::power2::pow2(zeros + 1) == 2 * power);
    assert(high * (2 * power) + low == n + 1);
    assert(high == 0) by (nonlinear_arith)
        requires
            high * (2 * power) + low == n + 1,
            n + 1 < 2 * power,
            0 <= high,
            0 <= low,
            power > 0,
    ;
    assert(high * (2 * power) == 0) by (nonlinear_arith)
        requires
            high == 0,
    ;
    assert(low == n + 1);
    lemma_zero_bits(data, pos, zeros);
    lemma_bits_split(data, pos + zeros, 1, zeros);
    lemma_bits_bound(data, pos + zeros + 1, zeros);
    lemma_bit(data, pos + zeros);
    assert(bits_value(data, pos + zeros, 0) == 0);
    let first = bits_value(data, pos + zeros, 1);
    assert(first == bit_at(data, pos + zeros));
    assert(1 + zeros == zeros + 1);
    assert(first == 1) by (nonlinear_arith)
        requires
            first * power + bits_value(data, pos + zeros + 1, zeros) == low,
            low >= power,
            0 <= first <= 1,
            0 <= bits_value(data, pos + zeros + 1, zeros) < power,
    ;
    assert(zeros_then_one(data, pos, zeros as int));
    assert(1 * power + bits_value(data, pos + zeros + 1, zeros) == low);
    let found = choose|z: int| z <= 32 && zeros_then_one(data, pos, z);
    lemma_first_one(data, pos, zeros as int, found);
}

/// A frame size reads back. Where the fields of a set hold its number, the chroma
/// format, the width and the height one after the other, with one bit more after a
/// chroma format of three, those are the width and the height.
pub proof fn law_a_frame_size_reads_back(
    sps: Seq<u8>,
    id: (int, nat),
    chroma: (int, nat),
    width: (int, nat),
    height: (int, nat),
)
    requires
        id.1 <= 32 && chroma.1 <= 32 && width.1 <= 32 && height.1 <= 32,
        width.0 > 0 && height.0 > 0,
        ({
            let rb = raw_bytes(sps);
            let at = size_fields_at(rb);
            let second = at + 2 * id.1 + 1;
            let third = second + 2 * chroma.1 + 1 + (if chroma.0 == 3 {
                1int
            } else {
                0
            });
            let fourth = third + 2 * width.1 + 1;
            &&& golomb_stands_at(rb, at, id.0, id.1)
            &&& golomb_stands_at(rb, second, chroma.0, chroma.1)
            &&& golomb_stands_at(rb, third, width.0, width.1)
            &&& golomb_stands_at(rb, fourth, height.0, height.1)
            &&& fourth + 2 * height.1 + 1 <= 8 * rb.len()
        }),
    ensures
        frame_size(sps) == Some((width.0, height.0)),
{
    let rb = raw_bytes(sps);
    let at = size_fields_at(rb);
    let second = at + 2 * id.1 + 1;
    let third = second + 2 * chroma.1 + 1 + (if chroma.0 == 3 {
        1int
    } else {
        0
    });
    law_golomb_reads_back(rb, at, id.0, id.1);
    law_golomb_reads_back(rb, second, chroma.0, chroma.1);
    law_golomb_reads_back(rb, third, width.0, width.1);
    law_golomb_reads_back(rb, third + 2 * width.1 + 1, height.0, height.1);
}

/// Where the fields of a set start: after thirteen bytes, where it has one layer. With
/// more there are two bytes of flags, and each layer that is flagged for its profile
/// takes eleven bytes more, and each that is for its level one.
pub proof fn law_the_fields_follow_the_layers(rb: Seq<u8>, layers: nat)
    requires
        layers <= 7,
        bits_value(rb, 4, 3) == layers,
    ensures
        layers == 0 ==> size_fields_at(rb) == 8 * 13,
        layers > 0 && (forall|k: int| 104 <= k < 120 ==> #[trigger] bit_at(rb, k) == 0)
            ==> size_fields_at(rb) == 8 * 15,
        layers > 0 && (forall|k: int|
            104 <= k < 104 + 2 * layers ==> #[trigger] bit_at(rb, k) == 1) ==> size_fields_at(rb)
            == 8 * (15 + 12 * layers),
{
    if layers > 0 && (forall|k: int| 104 <= k < 120 ==> #[trigger] bit_at(rb, k) == 0) {
        lemma_no_layer_bits(rb, layers);
    }
    if layers > 0 && (forall|k: int|
        104 <= k < 104 + 2 * layers ==> #[trigger] bit_at(rb, k) == 1) {
        lemma_all_layer_bits(rb, layers, layers);
    }
}

proof fn lemma_no_layer_bits(rb: Seq<u8>, count: nat)
    requires
        count <= 7,
        forall|k: int| 104 <= k < 120 ==> #[trigger] bit_at(rb, k) == 0,
    ensures
        sub_layer_bits(rb, count) == 0,
    decreases count,
{
    if count > 0 {
        let i = count - 1;
        lemma_no_layer_bits(rb, i as nat);
        assert(bit_at(rb, 104 + 2 * i) == 0 && bit_at(rb, 104 + 2 * i + 1) == 0);
    }
}

proof fn lemma_all_layer_bits(rb: Seq<u8>, count: nat, layers: nat)
    requires
        count <= layers,
        forall|k: int| 104 <= k < 104 + 2 * layers ==> #[trigger] bit_at(rb, k) == 1,
    ensures
        sub_layer_bits(rb, count) == 96 * count,
    decreases count,
{
    if count > 0 {
        let i = count - 1;
        lemma_all_layer_bits(rb, i as nat, layers);
        assert(bit_at(rb, 104 + 2 * i) == 1 && bit_at(rb, 104 + 2 * i + 1) == 1);
    }
}

/// The footer that the device puts behind a unit comes off, and nothing else does.
pub proof fn law_only_the_footer_comes_off(nal: Seq<u8>)
    ensures
        without_trailer(nal + DISPLAYSERVICE_NAL_TRAILER@) == nal,
        nal.len() < 14 ==> without_trailer(nal) == nal,
        without_trailer(nal) == nal || without_trailer(nal) + DISPLAYSERVICE_NAL_TRAILER@ == nal,
{
    let whole = nal + DISPLAYSERVICE_NAL_TRAILER@;
    assert(whole.subrange(whole.len() - 14, whole.len() as int) =~= DISPLAYSERVICE_NAL_TRAILER@);
    assert(whole.subrange(0, whole.len() - 14) =~= nal);
    if has_trailer(nal) {
        assert(without_trailer(nal) + DISPLAYSERVICE_NAL_TRAILER@ =~= nal);
    }
}

} // verus!
