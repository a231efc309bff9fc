//! What a video source hands to its viewers.

use crate::wire;
use vstd::prelude::*;

verus! {

/// One picture, ready for a decoder.
#[derive(Debug, Clone, PartialEq, Eq)]
pub struct AccessUnit {
    /// NAL units behind four-byte lengths.
    pub data: Vec<u8>,
    /// Whether it decodes without an earlier picture.
    pub is_key: bool,
}

/// What a decoder is configured with.
#[derive(Debug, Clone, PartialEq, Eq)]
pub struct CodecDescription {
    /// The WebCodecs codec string.
    pub codec: String,
    /// The codec's own configuration record.
    pub description: Vec<u8>,
}

impl View for CodecDescription {
    type V = (Seq<char>, Seq<u8>);

    open spec fn view(&self) -> (Seq<char>, Seq<u8>) {
        (self.codec@, self.description@)
    }
}

/// What a decoder was last configured with, if it was.
pub open spec fn codec_in(slot: Option<CodecDescription>) -> Option<(Seq<char>, Seq<u8>)> {
    match slot {
        Some(codec) => Some(codec@),
        None => None,
    }
}

impl CodecDescription {
    /// Whether two descriptions configure a decoder alike.
    pub fn same_as(&self, other: &CodecDescription) -> (same: bool)
        ensures
            same == (self@ == other@),
    {
        self.codec == other.codec && wire::same_bytes(&self.description, &other.description)
    }

    pub fn copy(&self) -> (copy: CodecDescription)
        ensures
            copy@ == self@,
    {
        CodecDescription {
            codec: self.codec.clone(),
            description: vstd::slice::slice_to_vec(&self.description),
        }
    }
}

/// NAL units behind their four-byte lengths, one after the other.
pub open spec fn packed(nals: Seq<Seq<u8>>) -> Seq<u8>
    decreases nals.len(),
{
    if nals.len() == 0 {
        Seq::empty()
    } else {
        packed(nals.drop_last()) + wire::be32((nals.last().len() % 0x1_0000_0000) as u32)
            + nals.last()
    }
}

/// The units that a packed access unit holds from byte `at` on, where each
/// length leads to the next.
pub open spec fn unpacked(data: Seq<u8>, at: int) -> Seq<Seq<u8>>
    decreases data.len() - at,
{
    if at < 0 || at + 4 > data.len() {
        Seq::empty()
    } else {
        let end = at + 4 + wire::be32_at(data, at);
        if end > data.len() {
            Seq::empty()
        } else {
            seq![data.subrange(at + 4, end)] + unpacked(data, end)
        }
    }
}

proof fn lemma_packed_front(nals: Seq<Seq<u8>>)
    requires
        nals.len() > 0,
    ensures
        packed(nals) == wire::be32((nals[0].len() % 0x1_0000_0000) as u32) + nals[0] + packed(
            nals.drop_first(),
        ),
    decreases nals.len(),
{
    let first = wire::be32((nals[0].len() % 0x1_0000_0000) as u32) + nals[0];
    if nals.len() == 1 {
        assert(nals.drop_last() =~= Seq::<Seq<u8>>::empty());
        assert(nals.drop_first() =~= Seq::<Seq<u8>>::empty());
        assert(packed(nals) =~= first + packed(nals.drop_first()));
    } else {
        lemma_packed_front(nals.drop_last());
        assert(nals.drop_last().drop_first() =~= nals.drop_first().drop_last());
        assert(packed(nals) =~= first + packed(nals.drop_first()));
    }
}

proof fn lemma_packed_splits(before: Seq<u8>, nals: Seq<Seq<u8>>)
    requires
        forall|i: int| 0 <= i < nals.len() ==> (#[trigger] nals[i]).len() <= u32::MAX,
    ensures
        unpacked(before + packed(nals), before.len() as int) == nals,
    decreases nals.len(),
{
    let data = before + packed(nals);
    let at = before.len() as int;
    if nals.len() > 0 {
        let nal = nals[0];
        let rest = nals.drop_first();
        let length = wire::be32(nal.len() as u32);
        lemma_packed_front(nals);
        assert forall|i: int| 0 <= i < rest.len() implies (#[trigger] rest[i]).len()
            <= u32::MAX by {
            assert(rest[i] == nals[i + 1]);
        }
        assert(data =~= before + length + (nal + packed(rest)));
        wire::law_be32_reads_back(nal.len() as u32, before, nal + packed(rest));
        assert(data =~= (before + length + nal) + packed(rest));
        assert(data.subrange(at + 4, at + 4 + nal.len()) =~= nal);
        lemma_packed_splits(before + length + nal, rest);
        assert((before + length + nal).len() == at + 4 + nal.len());
        assert(nals =~= seq![nal] + rest);
    } else {
        assert(nals =~= Seq::<Seq<u8>>::empty());
    }
}

/// A packed access unit holds exactly the NAL units that went into it, in
/// order: following the lengths gives them back.
pub proof fn law_packed_unit_unpacks(nals: Seq<Seq<u8>>)
    requires
        forall|i: int| 0 <= i < nals.len() ==> (#[trigger] nals[i]).len() <= u32::MAX,
    ensures
        unpacked(packed(nals), 0) == nals,
{
    lemma_packed_splits(Seq::empty(), nals);
    assert(Seq::<u8>::empty() + packed(nals) =~= packed(nals));
}

} // verus!
