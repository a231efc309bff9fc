//! Annex-B to avcC: the framing the browser actually wants.
//!
//! scrcpy emits Annex-B: NAL units separated by `00 00 01` start codes, with the
//! parameter sets in-band. Fed that way, a browser converts every chunk again
//! and visibly tears under motion. So the parameter sets are lifted out into an
//! `AVCDecoderConfigurationRecord` sent once, out of band, and every frame is
//! rewritten to NAL units behind four-byte lengths.

use crate::text;
use crate::video;
use crate::wire;
use vstd::prelude::*;
use vstd::string::*;

verus! {

/// NAL unit types, from the low 5 bits of the header byte.
pub const NAL_SPS: u8 = 7;

pub const NAL_PPS: u8 = 8;

/// The type of a NAL unit; zero for one without a header.
pub open spec fn nal_type_of(nal: Seq<u8>) -> u8 {
    if nal.len() == 0 {
        0
    } else {
        nal[0] % 32
    }
}

pub fn nal_type(nal: &[u8]) -> (t: u8)
    ensures
        t == nal_type_of(nal@),
{
    if nal.len() == 0 {
        0
    } else {
        nal[0] % 32
    }
}

/// Whether a start code stands at `i`.
pub open spec fn code_at(data: Seq<u8>, i: int) -> bool {
    0 <= i && i + 3 <= data.len() && data[i] == 0 && data[i + 1] == 0 && data[i + 2] == 1
}

/// The first start code from `from` on; the length of `data` where there is
/// none.
pub open spec fn next_code(data: Seq<u8>, from: int) -> int
    decreases data.len() - from,
{
    if from + 3 > data.len() {
        data.len() as int
    } else if code_at(data, from) {
        from
    } else {
        next_code(data, from + 1)
    }
}

/// Where the unit before the start code at `next` ends. A four-byte start code
/// is a three-byte one preceded by a zero, which belongs to the next unit.
pub open spec fn unit_end(data: Seq<u8>, next: int) -> int {
    if next < data.len() && next > 0 && data[next - 1] == 0 {
        next - 1
    } else {
        next
    }
}

/// The NAL units of an Annex-B buffer from `from` on: what stands between the
/// start codes, without the empty ones.
pub open spec fn units_from(data: Seq<u8>, from: int) -> Seq<Seq<u8>>
    decreases data.len() - from,
    via units_from_decreases
{
    let code = next_code(data, from);
    if code >= data.len() {
        Seq::empty()
    } else {
        let body = code + 3;
        let end = unit_end(data, next_code(data, body));
        (if body < end {
            seq![data.subrange(body, end)]
        } else {
            Seq::empty()
        }) + units_from(data, body)
    }
}

#[via_fn]
proof fn units_from_decreases(data: Seq<u8>, from: int) {
    lemma_next_code(data, from);
}

proof fn lemma_next_code(data: Seq<u8>, from: int)
    ensures
        next_code(data, from) <= data.len(),
        from <= data.len() ==> from <= next_code(data, from),
        next_code(data, from) < data.len() ==> from <= next_code(data, from) && (0 <= from
            ==> code_at(data, next_code(data, from))) && next_code(data, from) + 3 <= data.len(),
        forall|i: int|
            from <= i < next_code(data, from) && 0 <= i ==> !#[trigger] code_at(data, i),
    decreases data.len() - from,
{
    if from + 3 <= data.len() && !code_at(data, from) {
        lemma_next_code(data, from + 1);
    }
}

/// The first start code is where `next_code` finds it.
proof fn lemma_is_next_code(data: Seq<u8>, from: int, at: int)
    requires
        0 <= from <= at <= data.len(),
        at < data.len() ==> code_at(data, at),
        forall|i: int| from <= i < at ==> !#[trigger] code_at(data, i),
    ensures
        next_code(data, from) == at,
{
    lemma_next_code(data, from);
    let found = next_code(data, from);
    if found < at {
        assert(!code_at(data, found));
    }
    if at < found {
        assert(!code_at(data, at));
    }
}

/// The bytes of slices.
pub open spec fn slices(parts: Seq<&[u8]>) -> Seq<Seq<u8>> {
    parts.map_values(|part: &[u8]| part@)
}

fn find_code(data: &[u8], from: usize) -> (at: usize)
    requires
        from <= data@.len(),
    ensures
        at == next_code(data@, from as int),
        from <= at <= data@.len(),
        at < data@.len() ==> at + 3 <= data@.len(),
{
    let mut i: usize = from;
    while data.len() - i >= 3
        invariant
            from <= i <= data.len(),
            next_code(data@, i as int) == next_code(data@, from as int),
        decreases data.len() - i,
    {
        if data[i] == 0 && data[i + 1] == 0 && data[i + 2] == 1 {
            return i;
        }
        i += 1;
    }
    data.len()
}

/// Split an Annex-B buffer into NAL units, dropping the start codes.
///
/// Handles both the 3-byte and 4-byte start codes, because a stream mixes them:
/// the 4-byte form is used before parameter sets and the first slice of a
/// picture, the 3-byte form elsewhere.
pub fn split_annex_b(data: &[u8]) -> (nals: Vec<&[u8]>)
    ensures
        slices(nals@) == units_from(data@, 0),
{
    let mut nals: Vec<&[u8]> = Vec::new();
    let mut from: usize = 0;
    let mut code: usize = find_code(data, 0);
    assert(slices(nals@) + units_from(data@, 0) =~= units_from(data@, 0));
    while code < data.len()
        invariant
            from <= code <= data.len(),
            code < data.len() ==> code + 3 <= data.len(),
            code == next_code(data@, from as int),
            slices(nals@) + units_from(data@, from as int) == units_from(data@, 0),
        decreases data.len() - from,
    {
        let ghost done = slices(nals@);
        let body: usize = code + 3;
        let next: usize = find_code(data, body);
        let end: usize = if next < data.len() && next > 0 && data[next - 1] == 0 {
            next - 1
        } else {
            next
        };
        if body < end {
            let nal = &data[body..end];
            nals.push(nal);
            assert(slices(nals@) =~= done.push(nal@));
            assert(done.push(nal@) + units_from(data@, body as int) =~= done + (seq![nal@]
                + units_from(data@, body as int)));
        } else {
            assert(Seq::<Seq<u8>>::empty() + units_from(data@, body as int) =~= units_from(
                data@,
                body as int,
            ));
        }
        from = body;
        code = next;
    }
    assert(slices(nals@) =~= slices(nals@) + Seq::<Seq<u8>>::empty());
    nals
}

/// Rewrite an Annex-B access unit as 4-byte-length-prefixed NALUs.
pub fn to_length_prefixed(data: &[u8]) -> (out: Vec<u8>)
    ensures
        out@ == video::packed(units_from(data@, 0)),
{
    let nals = split_annex_b(data);
    let ghost units = slices(nals@);
    let mut out: Vec<u8> = Vec::new();
    let mut i: usize = 0;
    assert(units.take(0) =~= Seq::<Seq<u8>>::empty());
    while i < nals.len()
        invariant
            i <= nals@.len(),
            units == slices(nals@),
            out@ == video::packed(units.take(i as int)),
        decreases nals@.len() - i,
    {
        let ghost more = units.take(i + 1);
        assert(more.drop_last() =~= units.take(i as int));
        assert(more.last() == nals@[i as int]@);
        let nal = nals[i];
        wire::push_be32(&mut out, (nal.len() as u64 % 0x1_0000_0000) as u32);
        wire::append(&mut out, nal);
        i += 1;
    }
    assert(units.take(i as int) =~= units);
    out
}

/// The last unit of a type.
pub open spec fn last_of(nals: Seq<Seq<u8>>, kind: u8) -> Option<Seq<u8>>
    decreases nals.len(),
{
    if nals.len() == 0 {
        None
    } else if nal_type_of(nals.last()) == kind {
        Some(nals.last())
    } else {
        last_of(nals.drop_last(), kind)
    }
}

/// The parameter sets carried by scrcpy's config packet.
#[derive(Debug, Clone, PartialEq, Eq)]
pub struct ParameterSets {
    pub sps: Vec<u8>,
    pub pps: Vec<u8>,
}

/// The sequence and the picture parameter set that a config packet carries, of
/// which the last of each counts; nothing where one of them is missing.
pub open spec fn sets_in(config: Seq<u8>) -> Option<(Seq<u8>, Seq<u8>)> {
    let nals = units_from(config, 0);
    match (last_of(nals, NAL_SPS), last_of(nals, NAL_PPS)) {
        (Some(sps), Some(pps)) => Some((sps, pps)),
        _ => None,
    }
}

/// The WebCodecs codec string, `avc1.PPCCLL`: the profile, the constraint-set
/// flags and the level, which are the bytes after a set's header.
pub open spec fn codec_text(sps: Seq<u8>) -> Seq<char> {
    "avc1."@ + text::hex(sps[1] as nat, 2, true) + text::hex(sps[2] as nat, 2, true) + text::hex(
        sps[3] as nat,
        2,
        true,
    )
}

/// An ISO/IEC 14496-15 `AVCDecoderConfigurationRecord` (avcC), with four-byte
/// lengths and one set of each kind.
pub open spec fn avcc_record(sps: Seq<u8>, pps: Seq<u8>) -> Seq<u8> {
    seq![1u8, sps[1], sps[2], sps[3], 0xFFu8, 0xE1u8] + wire::be16(
        (sps.len() % 0x1_0000) as u16,
    ) + sps + seq![1u8] + wire::be16((pps.len() % 0x1_0000) as u16) + pps
}

impl ParameterSets {
    /// Pull the SPS and PPS out of a config packet.
    pub fn parse(config: &[u8]) -> (sets: Option<Self>)
        ensures
            match sets {
                Some(sets) => sets_in(config@) == Some((sets.sps@, sets.pps@)),
                None => sets_in(config@) is None,
            },
    {
        let nals = split_annex_b(config);
        let ghost units = slices(nals@);
        let mut sps: Option<&[u8]> = None;
        let mut pps: Option<&[u8]> = None;
        let mut i: usize = 0;
        assert(units.take(0) =~= Seq::<Seq<u8>>::empty());
        while i < nals.len()
            invariant
                i <= nals@.len(),
                units == slices(nals@),
                match sps {
                    Some(nal) => last_of(units.take(i as int), NAL_SPS) == Some(nal@),
                    None => last_of(units.take(i as int), NAL_SPS) is None,
                },
                match pps {
                    Some(nal) => last_of(units.take(i as int), NAL_PPS) == Some(nal@),
                    None => last_of(units.take(i as int), NAL_PPS) is None,
                },
            decreases nals@.len() - i,
        {
            let ghost more = units.take(i + 1);
            assert(more.drop_last() =~= units.take(i as int));
            assert(more.last() == nals@[i as int]@);
            let nal = nals[i];
            let kind: u8 = nal_type(nal);
            if kind == NAL_SPS {
                sps = Some(nal);
            } else if kind == NAL_PPS {
                pps = Some(nal);
            }
            i += 1;
        }
        assert(units.take(i as int) =~= units);
        match (sps, pps) {
            (Some(sps), Some(pps)) => Some(
                ParameterSets {
                    sps: vstd::slice::slice_to_vec(sps),
                    pps: vstd::slice::slice_to_vec(pps),
                },
            ),
            _ => None,
        }
    }

    /// The WebCodecs codec string, `avc1.PPCCLL`.
    pub fn codec_string(&self) -> (codec: Option<String>)
        ensures
            match codec {
                Some(codec) => self.sps@.len() >= 4 && codec@ == codec_text(self.sps@),
                None => self.sps@.len() < 4,
            },
    {
        if self.sps.len() < 4 {
            return None;
        }
        let mut out = String::new();
        out.append("avc1.");
        text::push_hex(&mut out, self.sps[1] as u64, 2, true);
        text::push_hex(&mut out, self.sps[2] as u64, 2, true);
        text::push_hex(&mut out, self.sps[3] as u64, 2, true);
        assert(out@ =~= codec_text(self.sps@));
        Some(out)
    }

    /// An ISO/IEC 14496-15 `AVCDecoderConfigurationRecord` (avcC).
    pub fn avcc(&self) -> (record: Option<Vec<u8>>)
        ensures
            match record {
                Some(record) => self.sps@.len() >= 4 && record@ == avcc_record(
                    self.sps@,
                    self.pps@,
                ),
                None => self.sps@.len() < 4,
            },
    {
        if self.sps.len() < 4 {
            return None;
        }
        let mut record: Vec<u8> = Vec::new();
        record.push(1);  // configurationVersion
        record.push(self.sps[1]);
        record.push(self.sps[2]);
        record.push(self.sps[3]);
        // 6 reserved bits set, then lengthSizeMinusOne = 3 (4-byte lengths).
        record.push(0xFF);
        // 3 reserved bits set, then numOfSequenceParameterSets = 1.
        record.push(0xE1);
        wire::push_be16(&mut record, (self.sps.len() % 0x1_0000) as u16);
        wire::append(&mut record, &self.sps);
        record.push(1);  // numOfPictureParameterSets
        wire::push_be16(&mut record, (self.pps.len() % 0x1_0000) as u16);
        wire::append(&mut record, &self.pps);
        assert(record@ =~= avcc_record(self.sps@, self.pps@));
        Some(record)
    }
}

/// An Annex-B buffer of these units, where `long` says which of them come after
/// a four-byte start code rather than a three-byte one.
pub open spec fn annex_b(nals: Seq<Seq<u8>>, long: Seq<bool>) -> Seq<u8>
    decreases nals.len(),
{
    if nals.len() == 0 {
        Seq::empty()
    } else {
        (if long[0] {
            seq![0u8, 0u8, 0u8, 1u8]
        } else {
            seq![0u8, 0u8, 1u8]
        }) + nals[0] + annex_b(nals.drop_first(), long.drop_first())
    }
}

/// What an encoder writes between two start codes: something that holds no
/// start code.
pub open spec fn is_unit(nal: Seq<u8>) -> bool {
    &&& nal.len() > 0
    &&& forall|i: int| !#[trigger] code_at(nal, i)
}

/// That no unit before a three-byte start code ends in a zero, which with that
/// code would read as a four-byte one.
pub open spec fn ends_are_clear(nals: Seq<Seq<u8>>, long: Seq<bool>) -> bool {
    forall|i: int|
        0 <= i < nals.len() - 1 && !long[i + 1] ==> (#[trigger] nals[i]).last() != 0
}

proof fn lemma_annex_b_start(nals: Seq<Seq<u8>>, long: Seq<bool>)
    requires
        nals.len() > 0,
        long.len() == nals.len(),
    ensures
        ({
            let data = annex_b(nals, long);
            let code = if long[0] {
                1int
            } else {
                0
            };
            &&& data.len() >= code + 3
            &&& code_at(data, code)
            &&& forall|i: int| 0 <= i < code ==> !#[trigger] code_at(data, i)
        }),
{
}

/// Splitting from `from`, before the units' start codes, gives the units.
proof fn lemma_splits(before: Seq<u8>, nals: Seq<Seq<u8>>, long: Seq<bool>)
    requires
        long.len() == nals.len(),
        forall|i: int| 0 <= i < nals.len() ==> is_unit(#[trigger] nals[i]),
        ends_are_clear(nals, long),
    ensures
        units_from(before + annex_b(nals, long), before.len() as int) == nals,
    decreases nals.len(),
{
    let data = before + annex_b(nals, long);
    let from = before.len() as int;
    lemma_next_code(data, from);
    if nals.len() == 0 {
        assert(next_code(data, from) == data.len());
        assert(nals =~= Seq::<Seq<u8>>::empty());
    } else {
        let nal = nals[0];
        let rest = nals.drop_first();
        let rest_long = long.drop_first();
        let tail = annex_b(rest, rest_long);
        let prefix = if long[0] {
            seq![0u8, 0u8, 0u8, 1u8]
        } else {
            seq![0u8, 0u8, 1u8]
        };
        let code = from + prefix.len() - 3;
        let body = code + 3;
        let stop = body + nal.len();
        assert(data =~= before + prefix + nal + tail);
        assert forall|i: int| from <= i < code implies !#[trigger] code_at(data, i) by {
            assert(data[i + 2] == 0);
        }
        assert(code_at(data, code));
        lemma_is_next_code(data, from, code);
        // No start code begins inside the unit.
        assert forall|i: int| body <= i < stop implies !#[trigger] code_at(data, i) by {
            if i + 3 <= stop {
                assert(!code_at(nal, i - body));
                assert(data[i] == nal[i - body]);
                assert(data[i + 1] == nal[i - body + 1]);
                assert(data[i + 2] == nal[i - body + 2]);
            } else if i + 3 <= data.len() {
                // The unit's last byte and the first two of what follows.
                lemma_annex_b_start(rest, rest_long);
                assert(data[stop - 1] == nal.last());
                assert(data[stop] == tail[0] && data[stop + 1] == tail[1]);
                if !rest_long[0] {
                    assert(nals[0].last() != 0);
                }
            }
        }
        assert(ends_are_clear(rest, rest_long)) by {
            assert forall|i: int| 0 <= i < rest.len() - 1 && !rest_long[i + 1] implies (
            #[trigger] rest[i]).last() != 0 by {
                assert(rest[i] == nals[i + 1]);
                assert(rest_long[i + 1] == long[i + 2]);
            }
        }
        let before_rest = before + prefix + nal;
        assert forall|i: int| 0 <= i < rest.len() implies is_unit(#[trigger] rest[i]) by {
            assert(rest[i] == nals[i + 1]);
        }
        lemma_splits(before_rest, rest, rest_long);
        assert(data =~= before_rest + tail);
        assert(before_rest.len() == stop);
        let next = next_code(data, body);
        if rest.len() == 0 {
            assert(tail =~= Seq::<u8>::empty());
            assert(stop == data.len());
            lemma_is_next_code(data, body, stop);
            assert(unit_end(data, next) == stop);
        } else {
            lemma_annex_b_start(rest, rest_long);
            let gap = if rest_long[0] {
                1int
            } else {
                0
            };
            let after = stop + gap;
            assert forall|i: int| body <= i < after implies !#[trigger] code_at(data, i) by {
                if i >= stop {
                    assert(!code_at(tail, i - stop));
                    assert(data[i] == tail[i - stop]);
                    assert(data[i + 1] == tail[i - stop + 1]);
                    assert(data[i + 2] == tail[i - stop + 2]);
                }
            }
            assert(code_at(tail, gap));
            assert(data[after] == tail[gap]);
            assert(data[after + 1] == tail[gap + 1]);
            assert(data[after + 2] == tail[gap + 2]);
            lemma_is_next_code(data, body, after);
            assert(data[after - 1] == if gap == 1 {
                tail[0]
            } else {
                nal.last()
            });
            assert(gap == 1 ==> tail[0] == 0);
            assert(gap == 0 ==> nals[0].last() != 0);
            assert(unit_end(data, next) == stop);
        }
        assert(data.subrange(body, stop) =~= nal);
        // What follows the unit is found from its end as from its start.
        lemma_skip_unit(data, body, stop);
        assert(nals =~= seq![nal] + rest);
    }
}

/// Splitting does not depend on where in a stretch without start codes it
/// begins.
proof fn lemma_skip_unit(data: Seq<u8>, from: int, to: int)
    requires
        0 <= from <= to <= data.len(),
        forall|i: int| from <= i < to ==> !#[trigger] code_at(data, i),
    ensures
        units_from(data, from) == units_from(data, to),
{
    lemma_next_code(data, to);
    lemma_next_code(data, from);
    let at = next_code(data, to);
    assert forall|i: int| from <= i < at implies !#[trigger] code_at(data, i) by {}
    lemma_is_next_code(data, from, at);
}

/// An Annex-B buffer splits into the units that it was made of, whichever start
/// codes stand before them. Only a zero at the end of a unit before a three-byte
/// start code cannot be told from that code.
pub proof fn law_annex_b_splits_into_its_units(nals: Seq<Seq<u8>>, long: Seq<bool>)
    requires
        long.len() == nals.len(),
        forall|i: int| 0 <= i < nals.len() ==> is_unit(#[trigger] nals[i]),
        ends_are_clear(nals, long),
    ensures
        units_from(annex_b(nals, long), 0) == nals,
{
    lemma_splits(Seq::empty(), nals, long);
    assert(Seq::<u8>::empty() + annex_b(nals, long) =~= annex_b(nals, long));
}

proof fn lemma_units_hold_no_code(data: Seq<u8>, from: int)
    requires
        0 <= from <= data.len(),
    ensures
        forall|k: int, i: int|
            0 <= k < units_from(data, from).len() ==> !#[trigger] code_at(
                units_from(data, from)[k],
                i,
            ),
        forall|k: int|
            0 <= k < units_from(data, from).len() ==> (#[trigger] units_from(data, from)[k]).len()
                > 0,
    decreases data.len() - from,
{
    lemma_next_code(data, from);
    let code = next_code(data, from);
    if code < data.len() {
        let body = code + 3;
        lemma_next_code(data, body);
        let end = unit_end(data, next_code(data, body));
        let rest = units_from(data, body);
        lemma_units_hold_no_code(data, body);
        let all = units_from(data, from);
        if body < end {
            let unit = data.subrange(body, end);
            assert(all =~= seq![unit] + rest);
            assert forall|i: int| !#[trigger] code_at(unit, i) by {
                if code_at(unit, i) {
                    assert(code_at(data, body + i));
                }
            }
            assert forall|k: int, i: int| 0 <= k < all.len() implies !#[trigger] code_at(
                all[k],
                i,
            ) by {
                if k > 0 {
                    assert(all[k] == rest[k - 1]);
                }
            }
            assert forall|k: int| 0 <= k < all.len() implies (#[trigger] all[k]).len() > 0 by {
                if k > 0 {
                    assert(all[k] == rest[k - 1]);
                }
            }
        } else {
            assert(all =~= rest);
        }
    }
}

/// No unit of a split buffer is empty or holds a start code.
pub proof fn law_units_hold_no_start_code(data: Seq<u8>, k: int, i: int)
    requires
        0 <= k < units_from(data, 0).len(),
    ensures
        units_from(data, 0)[k].len() > 0,
        !code_at(units_from(data, 0)[k], i),
{
    lemma_units_hold_no_code(data, 0);
}

/// Whether a configuration record holds these two sets: version 1, the profile, its
/// flags and the level as the set for the sequence has them, four-byte lengths, and
/// one set of each kind behind its own length.
pub open spec fn record_holds(record: Seq<u8>, sps: Seq<u8>, pps: Seq<u8>) -> bool {
    let rest = (8 + sps.len()) as int;
    &&& record.len() == 11 + sps.len() + pps.len()
    &&& record[0] == 1
    &&& record[1] == sps[1] && record[2] == sps[2] && record[3] == sps[3]
    &&& record[4] % 4 == 3
    &&& record[5] % 32 == 1
    &&& wire::be16_at(record, 6) == sps.len()
    &&& record.subrange(8, rest) == sps
    &&& record[rest] == 1
    &&& wire::be16_at(record, rest + 1) == pps.len()
    &&& record.skip(rest + 3) == pps
}

/// A configuration record holds the sets that it was made of.
pub proof fn law_a_record_holds_its_sets(sps: Seq<u8>, pps: Seq<u8>)
    requires
        4 <= sps.len() < 0x1_0000,
        pps.len() < 0x1_0000,
    ensures
        record_holds(avcc_record(sps, pps), sps, pps),
{
    let record = avcc_record(sps, pps);
    let head = seq![1u8, sps[1], sps[2], sps[3], 0xFFu8, 0xE1u8];
    let (a, b) = (wire::be16(sps.len() as u16), wire::be16(pps.len() as u16));
    let rest = (8 + sps.len()) as int;
    assert(record =~= head + a + (sps + seq![1u8] + b + pps));
    wire::law_be16_reads_back(sps.len() as u16, head, sps + seq![1u8] + b + pps);
    assert(record =~= (head + a + sps + seq![1u8]) + b + pps);
    wire::law_be16_reads_back(pps.len() as u16, head + a + sps + seq![1u8], pps);
    assert(record.subrange(8, rest) =~= sps);
    assert(record.skip(rest + 3) =~= pps);
    assert(0xFFu8 % 4 == 3 && 0xE1u8 % 32 == 1);
}

pub(crate) proof fn lemma_last_of_two(sps: Seq<u8>, pps: Seq<u8>)
    requires
        sps.len() > 0,
        pps.len() > 0,
        sps[0] % 32 == 7,
        pps[0] % 32 == 8,
    ensures
        last_of(seq![sps, pps], NAL_SPS) == Some(sps),
        last_of(seq![sps, pps], NAL_PPS) == Some(pps),
{
    let both = seq![sps, pps];
    assert(both.drop_last() =~= seq![sps]);
    assert(both.last() == pps);
    assert(seq![sps].last() == sps);
    assert(last_of(seq![sps], NAL_SPS) == Some(sps));
}

/// The sets read back from the configuration that a server sends, with either form of
/// start code and in either order.
pub proof fn law_the_sets_read_back(sps: Seq<u8>, pps: Seq<u8>, long: Seq<bool>)
    requires
        long.len() == 2,
        is_unit(sps),
        is_unit(pps),
        sps[0] % 32 == 7,
        pps[0] % 32 == 8,
        sps.last() != 0,
        pps.last() != 0,
    ensures
        sets_in(annex_b(seq![sps, pps], long)) == Some((sps, pps)),
        sets_in(annex_b(seq![pps, sps], long)) == Some((sps, pps)),
        sets_in(annex_b(seq![sps], seq![long[0]])) is None,
        sets_in(annex_b(seq![pps], seq![long[0]])) is None,
{
    law_annex_b_splits_into_its_units(seq![sps, pps], long);
    law_annex_b_splits_into_its_units(seq![pps, sps], long);
    law_annex_b_splits_into_its_units(seq![sps], seq![long[0]]);
    law_annex_b_splits_into_its_units(seq![pps], seq![long[0]]);
    lemma_last_of_two(sps, pps);
    let turned = seq![pps, sps];
    assert(turned.last() == sps);
    assert(turned.drop_last() =~= seq![pps]);
    assert(seq![pps].last() == pps && seq![sps].last() == sps);
    assert(last_of(seq![pps].drop_last(), NAL_SPS) is None);
    assert(last_of(seq![sps].drop_last(), NAL_PPS) is None);
    assert(last_of(seq![pps], NAL_PPS) == Some(pps));
    assert(last_of(seq![pps], NAL_SPS) is None);
    assert(last_of(seq![sps], NAL_PPS) is None);
    assert(last_of(turned, NAL_PPS) == last_of(seq![pps], NAL_PPS));
}

} // verus!
