//! The CoreDevice display media session: RTP in, RTCP out, access units out.
//!
//! What keeps a real device streaming:
//!
//! * **Receiver reports.** Without a periodic one the encoder stalls.
//! * **Corrupt access units are dropped whole.** A missing reference does not
//!   make a decoder raise; it renders mispredicted blocks until the next IDR.
//! * **Keyframe requests are rate limited.** The encoder degrades under a
//!   barrage of them and can wedge outright.
//! * **A decoder-refresh loop.** Under sustained motion the encoder drops its
//!   resolution, and a fresh IDR while still moving brings it back.
//! * **A stall watchdog.** An encoder that stops emitting entirely only comes
//!   back with a new session.

use crate::backend_ios::hevc;
use crate::backend_ios::hevc::{Depacketizer, ParameterSets};
use crate::clock;
use crate::property;
use crate::property::PropertyView;
use crate::video;
use crate::video::{AccessUnit, CodecDescription};
use crate::wire;
use std::collections::VecDeque;
use vstd::prelude::*;

verus! {

/// Floor between keyframe requests, covering both the refresh loop and the
/// recovery paths.
pub const KEYFRAME_MIN_INTERVAL: u64 = 700_000_000;

/// Cadence of the mid-motion refresh while the byte rate says the screen moves.
pub const MOTION_IDR_INTERVAL: u64 = 1_000_000_000;

/// The byte rate over a one-second window above which the screen counts as
/// moving.
pub const MOTION_THRESHOLD_BPS: u64 = 200_000;

/// The byte rate must stay continuously below the threshold this long before a
/// settle refresh fires, so a short dip between two swipes cannot set it off.
pub const SETTLE_QUIET: u64 = 1_500_000_000;

/// Idle backstop cadence.
pub const REFRESH_HEARTBEAT: u64 = 10_000_000_000;

/// RTCP receiver-report cadence.
pub const RTCP_INTERVAL: u64 = 1_000_000_000;

/// No access unit for this long and the session is considered wedged.
pub const STALL_TIMEOUT: u64 = 5_000_000_000;

/// How long the first access unit gets before the watchdog counts it as a
/// stall. Bring-up is slower than steady state, and firing here would turn a
/// slow start into a rebuild loop.
pub const FIRST_FRAME_TIMEOUT: u64 = 30_000_000_000;

/// Everything the RTCP loops need to describe the stream back to the device.
#[derive(Debug, Clone, Copy, PartialEq, Eq, Structural)]
pub struct RtpStats {
    pub packets: u64,
    /// Extended (cycle-shifted) highest sequence number received.
    pub highest_seq: u64,
    /// The first sequence number seen, plus one so zero means "not yet set".
    /// Loss is measured from here rather than from zero: the device's stream
    /// starts at an arbitrary sequence.
    pub base_seq: u64,
    /// RFC 3550 interarrival jitter in the media clock.
    pub jitter: u64,
    pub lost: u64,
}

impl Default for RtpStats {
    fn default() -> (stats: Self)
        ensures
            stats == RtpStats::zero(),
    {
        RtpStats { packets: 0, highest_seq: 0, base_seq: 0, jitter: 0, lost: 0 }
    }
}

impl RtpStats {
    /// The counters of a stream of which nothing has arrived.
    pub open spec fn zero() -> RtpStats {
        RtpStats { packets: 0, highest_seq: 0, base_seq: 0, jitter: 0, lost: 0 }
    }

    /// The extended sequence number that `seq` has next to the highest so far:
    /// one cycle on where it is smaller by more than half the range.
    pub open spec fn extended(self, seq: u16) -> int {
        let current = self.highest_seq as int % 0x1_0000_0000;
        let cycles = current / 0x1_0000;
        let last = current % 0x1_0000;
        (if seq < last && last - seq > 0x8000 {
            (cycles + 1) % 0x1_0000
        } else {
            cycles
        }) * 0x1_0000 + seq
    }

    /// Whether `seq` is not behind the highest so far.
    pub open spec fn is_ahead(self, seq: u16) -> bool {
        let current = self.highest_seq as int % 0x1_0000_0000;
        current == 0 || (self.extended(seq) - current) % 0x1_0000_0000 < 0x8000_0000
    }

    /// The counters after `seq` was noted. The first sequence number is
    /// remembered; what is ahead becomes the highest, and then as many packets
    /// are lost as are missing since the first.
    pub open spec fn noting(self, seq: u16) -> RtpStats {
        let base_seq = if self.base_seq == 0 {
            (seq + 1) as u64
        } else {
            self.base_seq
        };
        if self.is_ahead(seq) {
            let extended = self.extended(seq);
            let base = base_seq - 1;
            let expected = (if extended > base {
                extended - base
            } else {
                0
            }) + 1;
            RtpStats {
                base_seq,
                highest_seq: extended as u64,
                lost: (if expected > self.packets {
                    expected - self.packets
                } else {
                    0
                }) as u64,
                ..self
            }
        } else {
            RtpStats { base_seq, ..self }
        }
    }

    /// The counters after a packet arrived.
    pub open spec fn counted(self, seq: u16) -> RtpStats {
        RtpStats {
            packets: (if self.packets == u64::MAX {
                0
            } else {
                self.packets + 1
            }) as u64,
            ..self
        }.noting(seq)
    }
}

/// Maintain the extended highest-sequence counter and the loss estimate that
/// receiver reports carry.
pub fn track_sequence(stats: &mut RtpStats, seq: u16)
    ensures
        *final(stats) == old(stats).noting(seq),
{
    if stats.base_seq == 0 {
        stats.base_seq = seq as u64 + 1;
    }
    let current: u64 = stats.highest_seq % 0x1_0000_0000;
    let mut cycles: u64 = current / 0x1_0000;
    let last: u64 = current % 0x1_0000;
    if (seq as u64) < last && last - seq as u64 > 0x8000 {
        cycles = (cycles + 1) % 0x1_0000;
    }
    let extended: u64 = cycles * 0x1_0000 + seq as u64;
    let ahead: u64 = if extended >= current {
        extended - current
    } else {
        0x1_0000_0000 - (current - extended)
    };
    assert(ahead == (extended - current) % 0x1_0000_0000);
    if current == 0 || ahead < 0x8000_0000 {
        stats.highest_seq = extended;
        let base: u64 = stats.base_seq - 1;
        let expected: u64 = (if extended > base {
            extended - base
        } else {
            0
        }) + 1;
        stats.lost = if expected > stats.packets {
            expected - stats.packets
        } else {
            0
        };
    }
}

proof fn lemma_ahead(stats: RtpStats, highest: int, step: int)
    requires
        stats.highest_seq == highest,
        0 <= highest,
        1 <= step < 0x8000,
        highest + step < 0x1_0000_0000,
    ensures
        ({
            let seq = ((highest + step) % 0x1_0000) as u16;
            stats.extended(seq) == highest + step && stats.is_ahead(seq)
        }),
{
    let seq = ((highest + step) % 0x1_0000) as u16;
    let cycles = highest / 0x1_0000;
    let last = highest % 0x1_0000;
    assert(highest == cycles * 0x1_0000 + last);
    if last + step < 0x1_0000 {
        assert(seq == last + step);
    } else {
        assert(seq == last + step - 0x1_0000);
        assert(cycles + 1 < 0x1_0000);
    }
}

/// A packet up to half a cycle ahead of the highest becomes the highest, over
/// any number of cycles, and the loss is then what is missing since the first
/// sequence number: the sequence numbers from the first to this one, less the
/// packets that came.
pub proof fn law_loss_is_measured_from_the_first_sequence(
    stats: RtpStats,
    highest: int,
    first: int,
    step: int,
)
    requires
        stats.highest_seq == highest,
        stats.base_seq == first + 1,
        0 <= first <= highest,
        1 <= step < 0x8000,
        highest + step < 0x1_0000_0000,
    ensures
        ({
            let after = stats.noting(((highest + step) % 0x1_0000) as u16);
            let expected = highest + step - first + 1;
            &&& after.highest_seq == highest + step
            &&& after.base_seq == stats.base_seq
            &&& after.lost == if expected > stats.packets {
                expected - stats.packets
            } else {
                0
            }
        }),
{
    lemma_ahead(stats, highest, step);
}

/// The counters after the packets with the `count` sequence numbers from
/// `first` on arrived in order.
pub open spec fn in_order(first: u16, count: nat) -> RtpStats
    decreases count,
{
    if count == 0 {
        RtpStats::zero()
    } else {
        in_order(first, (count - 1) as nat).counted(((first + count - 1) % 0x1_0000) as u16)
    }
}

/// A stream that arrives in order loses nothing, wherever its sequence numbers
/// start and however often they wrap.
pub proof fn law_a_stream_in_order_loses_nothing(first: u16, count: nat)
    requires
        count >= 1,
        first + count <= 0x1_0000_0000,
    ensures
        in_order(first, count) == (RtpStats {
            packets: count as u64,
            highest_seq: (first + count - 1) as u64,
            base_seq: (first + 1) as u64,
            jitter: 0,
            lost: 0,
        }),
    decreases count,
{
    if count == 1 {
        assert(in_order(first, 0) == RtpStats::zero());
    } else {
        law_a_stream_in_order_loses_nothing(first, (count - 1) as nat);
        let before = in_order(first, (count - 1) as nat);
        let arrived = RtpStats { packets: count as u64, ..before };
        lemma_ahead(arrived, first + count - 2, 1);
    }
}

/// A packet that is late, by less than half the range and without crossing a
/// cycle, changes neither the highest sequence number nor the loss.
pub proof fn law_a_straggler_does_not_rewind(stats: RtpStats, seq: u16)
    requires
        stats.base_seq != 0,
        stats.highest_seq < 0x1_0000_0000,
        0 < stats.highest_seq % 0x1_0000 - seq <= 0x8000,
    ensures
        stats.noting(seq) == stats,
{
    let highest = stats.highest_seq as int;
    assert(stats.extended(seq) == highest / 0x1_0000 * 0x1_0000 + seq);
    let behind = stats.extended(seq) - highest;
    assert(-0x8000 <= behind < 0);
    assert(behind % 0x1_0000_0000 == behind + 0x1_0000_0000);
}

/// The two ends of one media stream.
#[derive(Debug, Clone, Copy, PartialEq, Eq, Structural)]
pub struct StreamIdentity {
    /// Our SSRC. The device's `streamConfig` names it `RemoteSSRC`, because the
    /// names in that dictionary are from the device's point of view.
    pub local_ssrc: u32,
    /// The device's SSRC (`LocalSSRC` in `streamConfig`).
    pub remote_ssrc: u32,
    /// The device's RTCP port; feedback is muxed onto the RTP socket.
    pub rtcp_port: u16,
}

/// The `streamConfig` in the device's answer to the start of a stream. It says
/// nothing where there is none.
pub open spec fn stream_config(answer: Map<Seq<char>, PropertyView>) -> Map<
    Seq<char>,
    PropertyView,
> {
    match property::table_of(property::entry_at(answer, "connection"@)) {
        Some(connection) => match property::table_of(
            property::entry_at(connection, "streamConfig"@),
        ) {
            Some(config) => config,
            None => Map::empty(),
        },
        None => Map::empty(),
    }
}

/// The ends of a stream from the three fields of its `streamConfig`, of which
/// the low bits count. None where a field is missing or comes out as zero.
pub open spec fn identity_of(ours: Option<u64>, theirs: Option<u64>, port: Option<u64>) -> Option<
    StreamIdentity,
> {
    if ours is None || theirs is None || port is None || ours->0 % 0x1_0000_0000 == 0 || theirs->0
        % 0x1_0000_0000 == 0 || port->0 % 0x1_0000 == 0 {
        None
    } else {
        Some(
            StreamIdentity {
                local_ssrc: (ours->0 % 0x1_0000_0000) as u32,
                remote_ssrc: (theirs->0 % 0x1_0000_0000) as u32,
                rtcp_port: (port->0 % 0x1_0000) as u16,
            },
        )
    }
}

/// The ends of a stream from the fields of its `streamConfig`.
pub fn identity_from_fields(ours: Option<u64>, theirs: Option<u64>, port: Option<u64>) -> (identity:
    Option<StreamIdentity>)
    ensures
        identity == identity_of(ours, theirs, port),
{
    match (ours, theirs, port) {
        (Some(ours), Some(theirs), Some(port)) => {
            let identity = StreamIdentity {
                local_ssrc: (ours % 0x1_0000_0000) as u32,
                remote_ssrc: (theirs % 0x1_0000_0000) as u32,
                rtcp_port: (port % 0x1_0000) as u16,
            };
            if identity.rtcp_port == 0 || identity.local_ssrc == 0 || identity.remote_ssrc == 0 {
                return None;
            }
            Some(identity)
        },
        _ => None,
    }
}

/// The ends of a stream by its `streamConfig`.
pub open spec fn identity_in(config: Map<Seq<char>, PropertyView>) -> Option<StreamIdentity> {
    identity_of(
        property::unsigned_of(property::entry_at(config, "RemoteSSRC"@)),
        property::unsigned_of(property::entry_at(config, "LocalSSRC"@)),
        property::unsigned_of(property::entry_at(config, "SourcePort"@)),
    )
}

/// The ends of a stream, as the device's answer to its start gives them.
pub fn stream_identity(answer: &plist::Value) -> (identity: Option<StreamIdentity>)
    ensures
        identity == identity_in(stream_config(property::table_in(*answer))),
{
    let answer = property::dictionary_of(answer)?;
    let connection = property::as_table(property::property(answer, "connection"))?;
    let config = property::as_table(property::property(connection, "streamConfig"))?;
    identity_from_fields(
        property::as_unsigned(property::property(config, "RemoteSSRC")),
        property::as_unsigned(property::property(config, "LocalSSRC")),
        property::as_unsigned(property::property(config, "SourcePort")),
    )
}

/// One block of an RTCP receiver report.
#[derive(Debug, Clone, Copy, PartialEq, Eq, Structural)]
pub struct ReportBlock {
    pub source_ssrc: u32,
    pub fraction_lost: u8,
    pub cumulative_lost: u32,
    pub highest_seq: u32,
    pub jitter: u32,
    pub lsr: u32,
    pub dlsr: u32,
}

/// What a receiver reports of a stream: its loss up to what 24 bits hold, and
/// the low 32 bits of its highest sequence number and its jitter.
pub open spec fn report_of(source_ssrc: u32, stats: RtpStats) -> ReportBlock {
    ReportBlock {
        source_ssrc,
        fraction_lost: 0,
        cumulative_lost: (if stats.lost < 0xFF_FFFF {
            stats.lost
        } else {
            0xFF_FFFF
        }) as u32,
        highest_seq: (stats.highest_seq % 0x1_0000_0000) as u32,
        jitter: (stats.jitter % 0x1_0000_0000) as u32,
        lsr: 0,
        dlsr: 0,
    }
}

pub fn report_block(source_ssrc: u32, stats: &RtpStats) -> (block: ReportBlock)
    ensures
        block == report_of(source_ssrc, *stats),
{
    ReportBlock {
        source_ssrc,
        fraction_lost: 0,
        cumulative_lost: (if stats.lost < 0xFF_FFFF {
            stats.lost
        } else {
            0xFF_FFFF
        }) as u32,
        highest_seq: (stats.highest_seq % 0x1_0000_0000) as u32,
        jitter: (stats.jitter % 0x1_0000_0000) as u32,
        lsr: 0,
        dlsr: 0,
    }
}

/// An RTCP receiver report with one block, and a source description with an
/// empty name.
pub open spec fn liveness_packet(our_ssrc: u32, block: ReportBlock) -> Seq<u8> {
    seq![0x81u8, 201u8, 0u8, 7u8] + wire::be32(our_ssrc) + wire::be32(block.source_ssrc) + seq![
        block.fraction_lost,
    ] + wire::be32(block.cumulative_lost).subrange(1, 4) + wire::be32(block.highest_seq)
        + wire::be32(block.jitter) + wire::be32(block.lsr) + wire::be32(block.dlsr) + seq![
        0x81u8,
        202u8,
        0u8,
        2u8,
    ] + wire::be32(our_ssrc) + seq![1u8, 0u8, 0u8, 0u8]
}

/// A liveness packet with a picture loss indication and a full intra request.
pub open spec fn keyframe_packet(
    our_ssrc: u32,
    media_ssrc: u32,
    block: ReportBlock,
    fir_seq: u8,
) -> Seq<u8> {
    liveness_packet(our_ssrc, block) + seq![0x81u8, 206u8, 0u8, 2u8] + wire::be32(our_ssrc)
        + wire::be32(media_ssrc) + seq![0x84u8, 206u8, 0u8, 4u8] + wire::be32(our_ssrc)
        + wire::be32(0) + wire::be32(media_ssrc) + seq![fir_seq, 0u8, 0u8, 0u8]
}

/// `idevice::core_device::build_liveness` with one block: a compound RTCP
/// packet of a receiver report and a source description. Nothing is stated of
/// it for a name that is not empty.
#[verifier::external_body]
fn build_liveness(our_ssrc: u32, cname: &str, block: ReportBlock) -> (packet: Vec<u8>)
    requires
        cname@.len() == 0,
    ensures
        packet@ == liveness_packet(our_ssrc, block),
{
    let block = idevice::core_device::ReportBlock {
        source_ssrc: block.source_ssrc,
        fraction_lost: block.fraction_lost,
        cumulative_lost: block.cumulative_lost,
        highest_seq: block.highest_seq,
        jitter: block.jitter,
        lsr: block.lsr,
        dlsr: block.dlsr,
    };
    idevice::core_device::build_liveness(our_ssrc, cname, &[block])
}

/// `idevice::core_device::build_keyframe_request` with one block: the liveness
/// packet, followed by a picture loss indication and a full intra request for
/// `media_ssrc`. Nothing is stated of it for a name that is not empty.
#[verifier::external_body]
fn build_keyframe_request(
    our_ssrc: u32,
    cname: &str,
    media_ssrc: u32,
    block: ReportBlock,
    fir_seq: u8,
) -> (packet: Vec<u8>)
    requires
        cname@.len() == 0,
    ensures
        packet@ == keyframe_packet(our_ssrc, media_ssrc, block, fir_seq),
{
    let block = idevice::core_device::ReportBlock {
        source_ssrc: block.source_ssrc,
        fraction_lost: block.fraction_lost,
        cumulative_lost: block.cumulative_lost,
        highest_seq: block.highest_seq,
        jitter: block.jitter,
        lsr: block.lsr,
        dlsr: block.dlsr,
    };
    idevice::core_device::build_keyframe_request(our_ssrc, cname, media_ssrc, &[block], fir_seq)
}

/// The receiver report that keeps the device's encoder alive: with no periodic
/// one it reaps the stream.
pub fn rtcp_liveness(identity: &StreamIdentity, stats: &RtpStats) -> (packet: Vec<u8>)
    ensures
        packet@ == liveness_packet(
            identity.local_ssrc,
            report_of(identity.remote_ssrc, *stats),
        ),
{
    proof {
        reveal_strlit("");
    }
    build_liveness(identity.local_ssrc, "", report_block(identity.remote_ssrc, stats))
}

/// The packet that asks the device for a fresh IDR.
pub fn keyframe_request(identity: &StreamIdentity, stats: &RtpStats, fir_seq: u8) -> (packet: Vec<
    u8,
>)
    ensures
        packet@ == keyframe_packet(
            identity.local_ssrc,
            identity.remote_ssrc,
            report_of(identity.remote_ssrc, *stats),
            fir_seq,
        ),
{
    proof {
        reveal_strlit("");
    }
    build_keyframe_request(
        identity.local_ssrc,
        "",
        identity.remote_ssrc,
        report_block(identity.remote_ssrc, stats),
        fir_seq,
    )
}

/// Whether the encoder has stopped emitting: nothing came for longer than the
/// stream's budget, which is larger until its first keyframe.
pub fn is_stalled(streaming: bool, last_au: u64, now: u64) -> (stalled: bool)
    ensures
        stalled == has_stalled(streaming, last_au, now),
{
    let budget: u64 = if streaming {
        STALL_TIMEOUT
    } else {
        FIRST_FRAME_TIMEOUT
    };
    clock::elapsed(now, last_au) > budget
}

/// The part of a window of `(time, bytes)` that is at most a second old, where
/// the oldest entries come first.
pub open spec fn recent(window: Seq<(u64, u64)>, now: u64) -> Seq<(u64, u64)>
    decreases window.len(),
{
    if window.len() > 0 && clock::since(now, window[0].0) > clock::SECOND {
        recent(window.drop_first(), now)
    } else {
        window
    }
}

/// How many bytes a window holds.
pub open spec fn window_bytes(window: Seq<(u64, u64)>) -> int
    decreases window.len(),
{
    if window.len() == 0 {
        0
    } else {
        window_bytes(window.drop_last()) + window.last().1
    }
}

fn forget_old(window: &mut VecDeque<(u64, u64)>, now: u64)
    ensures
        final(window)@ == recent(old(window)@, now),
{
    while window.len() > 0 && clock::elapsed(now, window[0].0) > clock::SECOND
        invariant
            recent(window@, now) == recent(old(window)@, now),
        decreases window@.len(),
    {
        let ghost before = window@;
        window.pop_front();
        assert(window@ =~= before.drop_first());
    }
}

proof fn lemma_window_bytes(window: Seq<(u64, u64)>, count: int)
    requires
        0 <= count <= window.len(),
    ensures
        0 <= window_bytes(window.take(count)) <= window_bytes(window),
    decreases window.len(),
{
    if count == window.len() {
        assert(window.take(count) =~= window);
        if count > 0 {
            lemma_window_bytes(window.drop_last(), count - 1);
        }
    } else {
        lemma_window_bytes(window.drop_last(), count);
        assert(window.take(count) =~= window.drop_last().take(count));
    }
}

/// Whether a window holds enough bytes for the screen to count as moving.
fn is_moving(window: &VecDeque<(u64, u64)>) -> (moving: bool)
    ensures
        moving == (window_bytes(window@) >= MOTION_THRESHOLD_BPS),
{
    let mut total: u64 = 0;
    let mut i: usize = 0;
    while i < window.len()
        invariant
            i <= window@.len(),
            total == window_bytes(window@.take(i as int)),
            total < MOTION_THRESHOLD_BPS,
        decreases window@.len() - i,
    {
        let ghost more = window@.take(i + 1);
        let size: u64 = window[i].1;
        assert(more.drop_last() =~= window@.take(i as int));
        assert(more.last().1 == size);
        proof {
            lemma_window_bytes(window@, i + 1);
        }
        if size >= MOTION_THRESHOLD_BPS - total {
            return true;
        }
        total = total + size;
        i += 1;
    }
    assert(window@.take(i as int) =~= window@);
    false
}

/// Why a fresh IDR was asked for.
#[derive(Debug, Clone, Copy, PartialEq, Eq, Structural)]
pub enum RefreshReason {
    /// A viewer asked.
    Viewer,
    /// An access unit was dropped.
    AuDrop,
    /// The screen is moving, so snap the collapsed resolution back.
    Motion,
    /// A genuine pause, so make the static screen crisp.
    Settled,
    /// An idle backstop that also unsticks a viewer waiting on a key that never
    /// came.
    Heartbeat,
}

/// Rate-limited keyframe requests, shared by the refresh loop and the recovery
/// paths.
#[derive(Debug, Clone, Copy, PartialEq, Eq, Structural)]
pub struct RefreshController {
    pub motion_idr: bool,
    pub last_refresh: u64,
    pub fir_seq: u8,
    pub quiet_since: Option<u64>,
    pub motion_since: Option<u64>,
}

impl RefreshController {
    pub fn new(motion_idr: bool, now: u64) -> (controller: Self)
        ensures
            controller == (RefreshController {
                motion_idr,
                last_refresh: now,
                fir_seq: 0,
                quiet_since: None,
                motion_since: None,
            }),
    {
        RefreshController {
            motion_idr,
            last_refresh: now,
            fir_seq: 0,
            quiet_since: None,
            motion_since: None,
        }
    }

    /// Whether enough time has passed since the last request for another.
    pub open spec fn may_request(self, now: u64) -> bool {
        clock::since(now, self.last_refresh) >= KEYFRAME_MIN_INTERVAL
    }

    /// The controller after a request went out.
    pub open spec fn requested(self, now: u64) -> RefreshController {
        RefreshController {
            last_refresh: now,
            fir_seq: if self.fir_seq == 255 {
                0
            } else {
                (self.fir_seq + 1) as u8
            },
            ..self
        }
    }

    /// The controller once it has seen whether the screen moves.
    pub open spec fn watched(self, moving: bool, now: u64) -> RefreshController {
        if moving {
            RefreshController {
                motion_since: if self.motion_since is Some {
                    self.motion_since
                } else {
                    Some(now)
                },
                quiet_since: None,
                ..self
            }
        } else {
            RefreshController {
                motion_since: None,
                quiet_since: if self.quiet_since is Some {
                    self.quiet_since
                } else {
                    Some(now)
                },
                ..self
            }
        }
    }

    /// Whether a tick finds a reason for a fresh IDR, and which.
    pub open spec fn reason(self, now: u64) -> Option<RefreshReason> {
        let waited = clock::since(now, self.last_refresh);
        if self.motion_since is Some && clock::since(now, self.motion_since->0)
            >= MOTION_IDR_INTERVAL && waited >= MOTION_IDR_INTERVAL {
            Some(RefreshReason::Motion)
        } else if self.quiet_since is Some && clock::since(now, self.quiet_since->0) >= SETTLE_QUIET
            && waited >= SETTLE_QUIET {
            Some(RefreshReason::Settled)
        } else if self.quiet_since is Some && waited >= REFRESH_HEARTBEAT {
            Some(RefreshReason::Heartbeat)
        } else {
            None
        }
    }

    /// Ask for a fresh IDR, unless one was asked for a moment ago: the sequence
    /// number for the request that is to go out.
    pub fn request(&mut self, now: u64) -> (fir_seq: Option<u8>)
        ensures
            fir_seq == if old(self).may_request(now) {
                Some(old(self).fir_seq)
            } else {
                None
            },
            *final(self) == if old(self).may_request(now) {
                old(self).requested(now)
            } else {
                *old(self)
            },
    {
        if clock::elapsed(now, self.last_refresh) < KEYFRAME_MIN_INTERVAL {
            return None;
        }
        self.last_refresh = now;
        let seq: u8 = self.fir_seq;
        self.fir_seq = if seq == 255 {
            0
        } else {
            seq + 1
        };
        Some(seq)
    }

    /// One tick of the decoder-refresh state machine.
    pub fn tick(&mut self, byte_window: &mut VecDeque<(u64, u64)>, now: u64) -> (request: Option<
        (RefreshReason, u8),
    >)
        ensures
            !old(self).motion_idr ==> {
                &&& request is None
                &&& *final(self) == *old(self)
                &&& final(byte_window)@ == old(byte_window)@
            },
            old(self).motion_idr ==> {
                let window = recent(old(byte_window)@, now);
                let watched = old(self).watched(window_bytes(window) >= MOTION_THRESHOLD_BPS, now);
                &&& final(byte_window)@ == window
                &&& if watched.may_request(now) && watched.reason(now) is Some {
                    request == Some((watched.reason(now)->0, old(self).fir_seq)) && *final(self)
                        == watched.requested(now)
                } else {
                    request is None && *final(self) == watched
                }
            },
    {
        if !self.motion_idr {
            return None;
        }
        forget_old(byte_window, now);
        if is_moving(byte_window) {
            if self.motion_since.is_none() {
                self.motion_since = Some(now);
            }
            self.quiet_since = None;
        } else {
            self.motion_since = None;
            if self.quiet_since.is_none() {
                self.quiet_since = Some(now);
            }
        }
        let since_refresh: u64 = clock::elapsed(now, self.last_refresh);
        if since_refresh < KEYFRAME_MIN_INTERVAL {
            return None;
        }
        let active = match self.motion_since {
            Some(started) => clock::elapsed(now, started) >= MOTION_IDR_INTERVAL && since_refresh
                >= MOTION_IDR_INTERVAL,
            None => false,
        };
        let settled = match self.quiet_since {
            Some(since) => clock::elapsed(now, since) >= SETTLE_QUIET && since_refresh
                >= SETTLE_QUIET,
            None => false,
        };
        let heartbeat = self.quiet_since.is_some() && since_refresh >= REFRESH_HEARTBEAT;
        let reason = if active {
            RefreshReason::Motion
        } else if settled {
            RefreshReason::Settled
        } else if heartbeat {
            RefreshReason::Heartbeat
        } else {
            return None;
        };
        match self.request(now) {
            Some(seq) => Some((reason, seq)),
            None => None,
        }
    }
}

/// What the media session tells the rest of the provider.
pub enum VideoEvent {
    /// The encoded frame size. It carries no rotation: a parameter set gives
    /// dimensions, never orientation.
    Geometry { width: i64, height: i64 },
    /// What decoders are to be configured with from here on.
    Codec(CodecDescription),
    /// One picture.
    Unit(AccessUnit),
    /// An RTCP packet for the device, and why it is sent.
    Rtcp { reason: RefreshReason, packet: Vec<u8> },
}

/// What a video event says.
pub enum VideoEventView {
    Geometry { width: i64, height: i64 },
    Codec((Seq<char>, Seq<u8>)),
    Unit { data: Seq<u8>, is_key: bool },
    Rtcp { reason: RefreshReason, packet: Seq<u8> },
}

impl View for VideoEvent {
    type V = VideoEventView;

    open spec fn view(&self) -> VideoEventView {
        match *self {
            VideoEvent::Geometry { width, height } => VideoEventView::Geometry { width, height },
            VideoEvent::Codec(codec) => VideoEventView::Codec(codec@),
            VideoEvent::Unit(unit) => VideoEventView::Unit {
                data: unit.data@,
                is_key: unit.is_key,
            },
            VideoEvent::Rtcp { reason, packet } => VideoEventView::Rtcp {
                reason,
                packet: packet@,
            },
        }
    }
}

/// What a run of video events says.
pub open spec fn event_views(events: Seq<VideoEvent>) -> Seq<VideoEventView> {
    events.map_values(|event: VideoEvent| event@)
}

/// Receives RTP, reassembles access units, and says what goes to viewers and
/// back to the device.
pub struct VideoReceiver {
    identity: StreamIdentity,
    depacketizer: Depacketizer,
    parameter_sets: ParameterSets,
    last_codec: Option<CodecDescription>,
    current_au: Vec<Vec<u8>>,
    au_is_key: bool,
    au_corrupt: bool,
    last_seq: Option<u16>,
    /// Rolling one-second window of delta sizes, driving the motion detector.
    /// Keyframes are left out: a forced IDR alone exceeds the motion threshold,
    /// so counting them would make each refresh trigger the next.
    byte_window: VecDeque<(u64, u64)>,
    refresh: RefreshController,
    stats: RtpStats,
    streaming: bool,
    last_au: u64,
}

/// The state of a media session's receiving side.
#[verifier::ext_equal]
pub struct ReceiverView {
    pub identity: StreamIdentity,
    /// The NAL unit being put together from fragments.
    pub fragment: Option<Seq<u8>>,
    pub sets: hevc::ParameterSetsView,
    /// What was last announced to decoders.
    pub last_codec: Option<(Seq<char>, Seq<u8>)>,
    /// The NAL units of the access unit being put together.
    pub unit: Seq<Seq<u8>>,
    pub unit_is_key: bool,
    /// Whether a packet of this access unit went missing.
    pub unit_is_corrupt: bool,
    pub last_seq: Option<u16>,
    pub window: Seq<(u64, u64)>,
    pub refresh: RefreshController,
    pub stats: RtpStats,
    /// Whether a keyframe has been delivered.
    pub streaming: bool,
    /// When the last access unit was delivered.
    pub last_au: u64,
}

impl ReceiverView {
    /// Whether `seq` does not directly follow the newest sequence number.
    pub open spec fn gap_before(self, seq: u16) -> bool {
        match self.last_seq {
            Some(previous) => seq != (previous + 1) % 0x1_0000,
            None => false,
        }
    }

    /// The newest sequence number after `seq`: only forward, so one reordered
    /// packet does not reset it.
    pub open spec fn newest(self, seq: u16) -> u16 {
        match self.last_seq {
            Some(previous) => if (seq - previous) % 0x1_0000 < 0x8000 {
                seq
            } else {
                previous
            },
            None => seq,
        }
    }

    /// The state and the events after one NAL unit was put to the access unit.
    /// A parameter set that gives a frame size is announced; a description is
    /// announced where it differs from the last.
    pub open spec fn taking(self, nal: Seq<u8>) -> (ReceiverView, Seq<VideoEventView>) {
        if nal.len() < 2 {
            (self, Seq::empty())
        } else {
            let kind = hevc::nal_type_of(nal);
            let sets = self.sets.after(nal);
            let sized = (kind == hevc::NAL_VPS || kind == hevc::NAL_SPS || kind == hevc::NAL_PPS)
                && sets.dimensions is Some;
            let changed = sets.described() is Some && self.last_codec != sets.described();
            (
                ReceiverView {
                    sets,
                    last_codec: if changed {
                        sets.described()
                    } else {
                        self.last_codec
                    },
                    unit: self.unit.push(nal),
                    unit_is_key: self.unit_is_key || kind == hevc::NAL_IDR_W_RADL || kind
                        == hevc::NAL_IDR_N_LP || kind == hevc::NAL_CRA,
                    ..self
                },
                (if sized {
                    seq![
                        VideoEventView::Geometry {
                            width: (sets.dimensions->0).0,
                            height: (sets.dimensions->0).1,
                        },
                    ]
                } else {
                    Seq::empty()
                }) + (if changed {
                    seq![VideoEventView::Codec(sets.described()->0)]
                } else {
                    Seq::empty()
                }),
            )
        }
    }

    /// The state and the events after a run of NAL units.
    pub open spec fn taking_all(self, nals: Seq<Seq<u8>>) -> (ReceiverView, Seq<VideoEventView>)
        decreases nals.len(),
    {
        if nals.len() == 0 {
            (self, Seq::empty())
        } else {
            let before = self.taking_all(nals.drop_last());
            let here = before.0.taking(nals.last());
            (here.0, before.1 + here.1)
        }
    }

    /// The state and the events after a request for a fresh IDR.
    pub open spec fn requesting(self, reason: RefreshReason, now: u64) -> (
        ReceiverView,
        Seq<VideoEventView>,
    ) {
        if self.refresh.may_request(now) {
            (
                ReceiverView { refresh: self.refresh.requested(now), ..self },
                seq![self.rtcp_event(reason)],
            )
        } else {
            (self, Seq::empty())
        }
    }

    /// The request for a fresh IDR that goes to the device.
    pub open spec fn rtcp_event(self, reason: RefreshReason) -> VideoEventView {
        VideoEventView::Rtcp {
            reason,
            packet: keyframe_packet(
                self.identity.local_ssrc,
                self.identity.remote_ssrc,
                report_of(self.identity.remote_ssrc, self.stats),
                self.refresh.fir_seq,
            ),
        }
    }

    /// The state and the events at the end of an access unit: a corrupt one is
    /// dropped whole and a fresh IDR asked for, any other goes to the viewers.
    pub open spec fn closing(self, now: u64) -> (ReceiverView, Seq<VideoEventView>) {
        let (after, events) = if self.unit_is_corrupt {
            self.requesting(RefreshReason::AuDrop, now)
        } else if self.unit.len() > 0 {
            let data = video::packed(self.unit);
            let window = if self.unit_is_key {
                self.window
            } else {
                self.window.push((now, data.len() as u64))
            };
            (
                ReceiverView {
                    window: recent(window, now),
                    streaming: self.streaming || self.unit_is_key,
                    last_au: now,
                    ..self
                },
                seq![VideoEventView::Unit { data, is_key: self.unit_is_key }],
            )
        } else {
            (self, Seq::empty())
        };
        (
            ReceiverView {
                unit: Seq::empty(),
                unit_is_key: false,
                unit_is_corrupt: false,
                ..after
            },
            events,
        )
    }

    /// The state and the events after one RTP packet. Any gap breaks the
    /// fragment in hand and spoils the whole access unit.
    pub open spec fn receiving(self, seq: u16, marker: bool, payload: Seq<u8>, now: u64) -> (
        ReceiverView,
        Seq<VideoEventView>,
    ) {
        let gap = self.gap_before(seq);
        let (fragment, nals) = hevc::depacketized(
            if gap {
                None
            } else {
                self.fragment
            },
            payload,
        );
        let (taken, events) = ReceiverView {
            stats: self.stats.counted(seq),
            unit_is_corrupt: self.unit_is_corrupt || gap,
            last_seq: Some(self.newest(seq)),
            fragment,
            ..self
        }.taking_all(nals);
        if marker {
            let (closed, more) = taken.closing(now);
            (closed, events + more)
        } else {
            (taken, events)
        }
    }
}

impl View for VideoReceiver {
    type V = ReceiverView;

    closed spec fn view(&self) -> ReceiverView {
        ReceiverView {
            identity: self.identity,
            fragment: self.depacketizer@,
            sets: self.parameter_sets@,
            last_codec: video::codec_in(self.last_codec),
            unit: hevc::units(self.current_au@),
            unit_is_key: self.au_is_key,
            unit_is_corrupt: self.au_corrupt,
            last_seq: self.last_seq,
            window: self.byte_window@,
            refresh: self.refresh,
            stats: self.stats,
            streaming: self.streaming,
            last_au: self.last_au,
        }
    }
}

impl VideoReceiver {
    pub fn new(identity: StreamIdentity, motion_idr: bool, now: u64) -> (receiver: Self)
        ensures
            receiver@ == (ReceiverView {
                identity,
                fragment: None,
                sets: hevc::ParameterSetsView {
                    vps: None,
                    sps: None,
                    pps: None,
                    codec_string: None,
                    dimensions: None,
                },
                last_codec: None,
                unit: Seq::empty(),
                unit_is_key: false,
                unit_is_corrupt: false,
                last_seq: None,
                window: Seq::empty(),
                refresh: RefreshController {
                    motion_idr,
                    last_refresh: now,
                    fir_seq: 0,
                    quiet_since: None,
                    motion_since: None,
                },
                stats: RtpStats::zero(),
                streaming: false,
                last_au: now,
            }),
    {
        let receiver = VideoReceiver {
            identity,
            depacketizer: Depacketizer::new(),
            parameter_sets: ParameterSets::default(),
            last_codec: None,
            current_au: Vec::new(),
            au_is_key: false,
            au_corrupt: false,
            last_seq: None,
            byte_window: VecDeque::new(),
            refresh: RefreshController::new(motion_idr, now),
            stats: RtpStats::default(),
            streaming: false,
            last_au: now,
        };
        assert(receiver@.unit =~= Seq::<Seq<u8>>::empty());
        receiver
    }

    fn take_unit(&mut self, nal: Vec<u8>, events: &mut Vec<VideoEvent>)
        ensures
            final(self)@ == old(self)@.taking(nal@).0,
            event_views(final(events)@) == event_views(old(events)@) + old(self)@.taking(nal@).1,
    {
        let ghost said = event_views(events@);
        let ghost before = self@;
        if nal.len() < 2 {
            assert(said =~= said + Seq::<VideoEventView>::empty());
            return;
        }
        let nal_type: u8 = hevc::nal_type(&nal);
        if self.parameter_sets.observe(&nal) {
            if let Some(size) = self.parameter_sets.dimensions {
                events.push(VideoEvent::Geometry { width: size.0, height: size.1 });
            }
        }
        let ghost sized = event_views(events@);
        if self.parameter_sets.is_complete() {
            if let Some((codec, description)) = self.parameter_sets.description() {
                let announced = CodecDescription { codec, description };
                // Announcing an unchanged description again would make every
                // viewer rebuild its decoder on each parameter-set repeat.
                let changed = match &self.last_codec {
                    Some(last) => !last.same_as(&announced),
                    None => true,
                };
                if changed {
                    events.push(VideoEvent::Codec(announced.copy()));
                    self.last_codec = Some(announced);
                }
            }
        }
        if hevc::is_key_nal(nal_type) {
            self.au_is_key = true;
        }
        self.current_au.push(nal);
        proof {
            let (after, more) = before.taking(nal@);
            assert(self@.unit =~= after.unit);
            assert(self@ =~= after);
            assert(event_views(events@) =~= said + more);
        }
    }

    fn ask(&mut self, reason: RefreshReason, now: u64, events: &mut Vec<VideoEvent>)
        ensures
            final(self)@ == old(self)@.requesting(reason, now).0,
            event_views(final(events)@) == event_views(old(events)@) + old(self)@.requesting(
                reason,
                now,
            ).1,
    {
        match self.refresh.request(now) {
            Some(fir_seq) => {
                let packet = keyframe_request(&self.identity, &self.stats, fir_seq);
                events.push(VideoEvent::Rtcp { reason, packet });
            },
            None => {},
        }
        assert(event_views(events@) =~= event_views(old(events)@) + old(self)@.requesting(
            reason,
            now,
        ).1);
    }

    /// A viewer asked for a fresh IDR.
    pub fn on_keyframe_requested(&mut self, now: u64) -> (events: Vec<VideoEvent>)
        ensures
            final(self)@ == old(self)@.requesting(RefreshReason::Viewer, now).0,
            event_views(events@) == old(self)@.requesting(RefreshReason::Viewer, now).1,
    {
        let mut events: Vec<VideoEvent> = Vec::new();
        self.ask(RefreshReason::Viewer, now, &mut events);
        assert(event_views(events@) =~= old(self)@.requesting(RefreshReason::Viewer, now).1);
        events
    }

    fn note_sequence(&mut self, seq: u16)
        ensures
            final(self)@ == (ReceiverView {
                stats: old(self)@.stats.counted(seq),
                fragment: if old(self)@.gap_before(seq) {
                    None
                } else {
                    old(self)@.fragment
                },
                unit_is_corrupt: old(self)@.unit_is_corrupt || old(self)@.gap_before(seq),
                last_seq: Some(old(self)@.newest(seq)),
                ..old(self)@
            }),
    {
        self.stats.packets = if self.stats.packets == u64::MAX {
            0
        } else {
            self.stats.packets + 1
        };
        track_sequence(&mut self.stats, seq);
        match self.last_seq {
            Some(previous) => {
                let next: u16 = if previous == 0xFFFF {
                    0
                } else {
                    previous + 1
                };
                if seq != next {
                    self.depacketizer.reset_fragment();
                    self.au_corrupt = true;
                }
                let ahead: u16 = if seq >= previous {
                    seq - previous
                } else {
                    0xFFFF - (previous - seq) + 1
                };
                assert(ahead == (seq - previous) % 0x1_0000);
                if ahead < 0x8000 {
                    self.last_seq = Some(seq);
                }
            },
            None => {
                self.last_seq = Some(seq);
            },
        }
    }

    fn take_units(&mut self, nals: Vec<Vec<u8>>, events: &mut Vec<VideoEvent>)
        ensures
            final(self)@ == old(self)@.taking_all(hevc::units(nals@)).0,
            event_views(final(events)@) == event_views(old(events)@) + old(self)@.taking_all(
                hevc::units(nals@),
            ).1,
    {
        let ghost units = hevc::units(nals@);
        let ghost start = self@;
        let ghost said = event_views(events@);
        assert(units.take(0) =~= Seq::<Seq<u8>>::empty());
        assert(said =~= said + Seq::<VideoEventView>::empty());
        for nal in it: nals
            invariant
                it.seq() == nals@,
                units == hevc::units(nals@),
                self@ == start.taking_all(units.take(it.index() as int)).0,
                event_views(events@) == said + start.taking_all(units.take(it.index() as int)).1,
        {
            let ghost sofar = units.take(it.index() + 1);
            assert(sofar.drop_last() =~= units.take(it.index() as int));
            assert(sofar.last() == nal@);
            let ghost spoken = event_views(events@);
            let ghost here = self@.taking(nal@).1;
            self.take_unit(nal, events);
            assert(spoken + here =~= said + (start.taking_all(sofar.drop_last()).1 + here));
        }
        assert(units.take(units.len() as int) =~= units);
    }

    fn close_unit(&mut self, now: u64, events: &mut Vec<VideoEvent>)
        ensures
            final(self)@ == old(self)@.closing(now).0,
            event_views(final(events)@) == event_views(old(events)@) + old(self)@.closing(now).1,
    {
        let ghost taken = self@;
        let ghost said = event_views(events@);
        if self.au_corrupt {
            // Without a fresh IDR every later delta references slices that were
            // never delivered.
            self.ask(RefreshReason::AuDrop, now, events);
        } else if !self.current_au.is_empty() {
            let data = hevc::pack_access_unit(&self.current_au);
            if !self.au_is_key {
                self.byte_window.push_back((now, data.len() as u64));
            }
            forget_old(&mut self.byte_window, now);
            if self.au_is_key {
                self.streaming = true;
            }
            self.last_au = now;
            events.push(VideoEvent::Unit(AccessUnit { data, is_key: self.au_is_key }));
        }
        self.current_au.clear();
        self.au_is_key = false;
        self.au_corrupt = false;
        proof {
            let (closed, more) = taken.closing(now);
            assert(self@.unit =~= closed.unit);
            assert(self@ =~= closed);
            assert(event_views(events@) =~= said + more);
        }
    }

    /// One RTP packet arrived.
    pub fn on_packet(&mut self, seq: u16, marker: bool, payload: &[u8], now: u64) -> (events: Vec<
        VideoEvent,
    >)
        ensures
            final(self)@ == old(self)@.receiving(seq, marker, payload@, now).0,
            event_views(events@) == old(self)@.receiving(seq, marker, payload@, now).1,
    {
        let ghost before = self@;
        let mut events: Vec<VideoEvent> = Vec::new();
        self.note_sequence(seq);
        let mut nals: Vec<Vec<u8>> = Vec::new();
        let ghost none = hevc::units(nals@);
        self.depacketizer.push(payload, &mut nals);
        proof {
            let gap = before.gap_before(seq);
            let (fragment, found) = hevc::depacketized(
                if gap {
                    None
                } else {
                    before.fragment
                },
                payload@,
            );
            assert(none + found =~= found);
            assert(self@ =~= ReceiverView {
                stats: before.stats.counted(seq),
                unit_is_corrupt: before.unit_is_corrupt || gap,
                last_seq: Some(before.newest(seq)),
                fragment,
                ..before
            });
        }
        let ghost start = self@;
        let ghost quiet = event_views(events@);
        self.take_units(nals, &mut events);
        assert(quiet + start.taking_all(hevc::units(nals@)).1 =~= start.taking_all(
            hevc::units(nals@),
        ).1);
        if marker {
            self.close_unit(now, &mut events);
        }
        events
    }

    /// One datagram arrived on the video socket. RTCP is muxed onto it, and
    /// neither that nor anything that is no RTP packet says anything.
    pub fn on_datagram(&mut self, datagram: &[u8], now: u64) -> (events: Vec<VideoEvent>)
        ensures
            match rtp_packet(datagram@) {
                Some((seq, marker, payload)) if !is_rtcp_datagram(datagram@) => {
                    &&& final(self)@ == old(self)@.receiving(seq, marker, payload, now).0
                    &&& event_views(events@) == old(self)@.receiving(seq, marker, payload, now).1
                },
                _ => final(self)@ == old(self)@ && events@.len() == 0,
            },
    {
        if idevice::core_device::is_rtcp(datagram) {
            return Vec::new();
        }
        match parse_rtp(datagram) {
            Some((seq, marker, payload)) => self.on_packet(seq, marker, &payload, now),
            None => Vec::new(),
        }
    }

    /// One tick of the decoder-refresh loop.
    pub fn on_tick(&mut self, now: u64) -> (events: Vec<VideoEvent>)
        ensures
            final(self)@ == old(self)@.ticking(now).0,
            event_views(events@) == old(self)@.ticking(now).1,
    {
        let mut events: Vec<VideoEvent> = Vec::new();
        match self.refresh.tick(&mut self.byte_window, now) {
            Some((reason, fir_seq)) => {
                let packet = keyframe_request(&self.identity, &self.stats, fir_seq);
                events.push(VideoEvent::Rtcp { reason, packet });
            },
            None => {},
        }
        assert(event_views(events@) =~= old(self)@.ticking(now).1);
        events
    }

    /// What the receiver reports of the stream.
    pub fn stats(&self) -> (stats: RtpStats)
        ensures
            stats == self@.stats,
    {
        self.stats
    }

    /// Whether the session is wedged and has to be rebuilt.
    pub fn is_stalled(&self, now: u64) -> (stalled: bool)
        ensures
            stalled == has_stalled(self@.streaming, self@.last_au, now),
    {
        is_stalled(self.streaming, self.last_au, now)
    }
}

/// Whether a datagram is RTCP: its packet type is one from the sender report to
/// payload-specific feedback.
pub open spec fn is_rtcp_datagram(datagram: Seq<u8>) -> bool {
    datagram.len() >= 2 && 200 <= datagram[1] <= 206
}

/// `idevice::core_device::is_rtcp` tells RTCP from RTP by the packet type.
pub assume_specification[ idevice::core_device::is_rtcp ](buf: &[u8]) -> (rtcp: bool)
    ensures
        rtcp == is_rtcp_datagram(buf@),
;

/// Where the payload of an RTP packet starts: after twelve bytes, the sources that
/// contributed, four bytes each, and the extension, whose length counts words.
pub open spec fn payload_start(datagram: Seq<u8>) -> int {
    let sources_end = 12 + 4 * (datagram[0] % 16);
    if datagram[0] / 16 % 2 == 0 {
        sources_end
    } else {
        sources_end + 4 + 4 * wire::be16_at(datagram, sources_end + 2)
    }
}

/// How many bytes of padding an RTP packet ends in: the last byte says so.
pub open spec fn padding_len(datagram: Seq<u8>) -> int {
    if datagram[0] / 32 % 2 == 0 {
        0
    } else {
        datagram.last() as int
    }
}

/// Whether a datagram is an RTP packet: it is of version 2 and holds whole what
/// its first byte announces, and padding that is announced is there.
pub open spec fn is_rtp(datagram: Seq<u8>) -> bool {
    &&& datagram.len() >= 12
    &&& datagram[0] / 64 == 2
    &&& datagram[0] / 16 % 2 == 1 ==> 12 + 4 * (datagram[0] % 16) + 4 <= datagram.len()
    &&& datagram[0] / 32 % 2 == 1 ==> datagram.last() > 0
    &&& payload_start(datagram) + padding_len(datagram) <= datagram.len()
}

/// The sequence number, the marker and the payload of an RTP packet; nothing
/// where a datagram is none.
pub open spec fn rtp_packet(datagram: Seq<u8>) -> Option<(u16, bool, Seq<u8>)> {
    if is_rtp(datagram) {
        Some(
            (
                wire::be16_at(datagram, 2) as u16,
                datagram[1] >= 0x80,
                datagram.subrange(
                    payload_start(datagram),
                    datagram.len() - padding_len(datagram),
                ),
            ),
        )
    } else {
        None
    }
}

/// An RTP packet's parts, the payload as a sequence of bytes.
pub open spec fn packet_view(packet: Option<(u16, bool, Vec<u8>)>) -> Option<
    (u16, bool, Seq<u8>),
> {
    match packet {
        Some((seq, marker, payload)) => Some((seq, marker, payload@)),
        None => None,
    }
}

/// `idevice::core_device::RtpPacket::parse`, of which the sequence number, the
/// marker and the payload are kept: what `rtp_packet` says.
#[verifier::external_body]
fn parse_rtp(datagram: &[u8]) -> (packet: Option<(u16, bool, Vec<u8>)>)
    ensures
        packet_view(packet) == rtp_packet(datagram@),
{
    let packet = idevice::core_device::RtpPacket::parse(datagram)?;
    Some((packet.sequence_number, packet.marker, packet.payload.to_vec()))
}

impl ReceiverView {
    /// The state and the events after one tick of the decoder-refresh loop.
    pub open spec fn ticking(self, now: u64) -> (ReceiverView, Seq<VideoEventView>) {
        if !self.refresh.motion_idr {
            (self, Seq::empty())
        } else {
            let window = recent(self.window, now);
            let watched = self.refresh.watched(
                window_bytes(window) >= MOTION_THRESHOLD_BPS,
                now,
            );
            if watched.may_request(now) && watched.reason(now) is Some {
                (
                    ReceiverView { window, refresh: watched.requested(now), ..self },
                    seq![self.rtcp_event(watched.reason(now)->0)],
                )
            } else {
                (ReceiverView { window, refresh: watched, ..self }, Seq::empty())
            }
        }
    }
}

proof fn lemma_taking_all_delivers_nothing(state: ReceiverView, nals: Seq<Seq<u8>>)
    ensures
        ({
            let (after, events) = state.taking_all(nals);
            &&& after.unit_is_corrupt == state.unit_is_corrupt
            &&& after.refresh == state.refresh
            &&& forall|i: int| 0 <= i < events.len() ==> !(#[trigger] events[i] is Unit)
            &&& forall|i: int| 0 <= i < events.len() ==> !(#[trigger] events[i] is Rtcp)
        }),
    decreases nals.len(),
{
    if nals.len() > 0 {
        lemma_taking_all_delivers_nothing(state, nals.drop_last());
    }
}

/// An access unit of which a packet went missing is never delivered, not even in
/// part: neither the packet after a gap nor any later one up to the end of the
/// unit publishes anything.
pub proof fn law_corrupt_units_are_dropped_whole(
    state: ReceiverView,
    seq: u16,
    marker: bool,
    payload: Seq<u8>,
    now: u64,
)
    requires
        state.unit_is_corrupt || state.gap_before(seq),
    ensures
        ({
            let (after, events) = state.receiving(seq, marker, payload, now);
            &&& forall|i: int| 0 <= i < events.len() ==> !(#[trigger] events[i] is Unit)
            &&& !marker ==> after.unit_is_corrupt
            &&& marker ==> after.unit.len() == 0
        }),
{
    let gap = state.gap_before(seq);
    let (fragment, nals) = hevc::depacketized(
        if gap {
            None
        } else {
            state.fragment
        },
        payload,
    );
    lemma_taking_all_delivers_nothing(
        ReceiverView {
            stats: state.stats.counted(seq),
            unit_is_corrupt: state.unit_is_corrupt || gap,
            last_seq: Some(state.newest(seq)),
            fragment,
            ..state
        },
        nals,
    );
}

/// The pictures that went to the viewers, each with whether it is a key one.
pub open spec fn pictures_in(events: Seq<VideoEventView>) -> Seq<(Seq<u8>, bool)>
    decreases events.len(),
{
    if events.len() == 0 {
        Seq::empty()
    } else {
        let before = pictures_in(events.drop_last());
        match events.last() {
            VideoEventView::Unit { data, is_key } => before.push((data, is_key)),
            _ => before,
        }
    }
}

/// The NAL units that have a whole header.
pub open spec fn headed(nals: Seq<Seq<u8>>) -> Seq<Seq<u8>>
    decreases nals.len(),
{
    if nals.len() == 0 {
        Seq::empty()
    } else {
        let before = headed(nals.drop_last());
        if nals.last().len() >= 2 {
            before.push(nals.last())
        } else {
            before
        }
    }
}

/// Whether one of these NAL units starts a picture that needs no other: an IDR, with
/// or without leading pictures, or a CRA. Those are types 19 to 21.
pub open spec fn starts_afresh(nals: Seq<Seq<u8>>) -> bool {
    exists|i: int| 0 <= i < nals.len() && 19 <= (#[trigger] nals[i])[0] / 2 % 64 <= 21
}

/// The packets of one picture: payloads with sequence numbers that count up from
/// `first`, of which the last has the marker.
pub open spec fn picture_packets(first: u16, payloads: Seq<Seq<u8>>) -> Seq<(u16, bool, Seq<u8>)> {
    Seq::new(
        payloads.len(),
        |i: int| (((first + i) % 0x1_0000) as u16, i == payloads.len() - 1, payloads[i]),
    )
}

/// The state and the events after one packet.
#[verifier::opaque]
pub open spec fn received(state: ReceiverView, packet: (u16, bool, Seq<u8>), now: u64) -> (
    ReceiverView,
    Seq<VideoEventView>,
) {
    state.receiving(packet.0, packet.1, packet.2, now)
}

/// The state and the events after a run of packets.
pub open spec fn receiving_all(
    state: ReceiverView,
    packets: Seq<(u16, bool, Seq<u8>)>,
    now: u64,
) -> (ReceiverView, Seq<VideoEventView>)
    decreases packets.len(),
{
    if packets.len() == 0 {
        (state, Seq::empty())
    } else {
        let (before, events) = receiving_all(state, packets.drop_last(), now);
        let (after, more) = received(before, packets.last(), now);
        (after, events + more)
    }
}

proof fn lemma_pictures_join(a: Seq<VideoEventView>, b: Seq<VideoEventView>)
    ensures
        pictures_in(a + b) == pictures_in(a) + pictures_in(b),
    decreases b.len(),
{
    if b.len() == 0 {
        assert(a + b =~= a);
        assert(pictures_in(a) + pictures_in(b) =~= pictures_in(a));
    } else {
        assert((a + b).drop_last() =~= a + b.drop_last());
        lemma_pictures_join(a, b.drop_last());
        assert(pictures_in(a + b) =~= pictures_in(a) + pictures_in(b));
    }
}

proof fn lemma_no_pictures(events: Seq<VideoEventView>)
    requires
        forall|i: int| 0 <= i < events.len() ==> !(#[trigger] events[i] is Unit),
    ensures
        pictures_in(events) == Seq::<(Seq<u8>, bool)>::empty(),
    decreases events.len(),
{
    if events.len() > 0 {
        assert(!(events[events.len() - 1] is Unit));
        assert forall|i: int| 0 <= i < events.drop_last().len() implies !(
        #[trigger] events.drop_last()[i] is Unit) by {
            assert(!(events[i] is Unit));
        }
        lemma_no_pictures(events.drop_last());
    }
}

proof fn lemma_kind(nal: Seq<u8>)
    ensures
        hevc::nal_type_of(nal) == nal[0] / 2 % 64,
{
    let byte = nal[0];
    assert((byte >> 1) & 0x3f == byte / 2 % 64) by (bit_vector);
}

proof fn lemma_headed_join(a: Seq<Seq<u8>>, b: Seq<Seq<u8>>)
    ensures
        headed(a + b) == headed(a) + headed(b),
        starts_afresh(headed(a) + headed(b)) == (starts_afresh(headed(a)) || starts_afresh(
            headed(b),
        )),
    decreases b.len(),
{
    if b.len() == 0 {
        assert(a + b =~= a);
        assert(headed(a) + headed(b) =~= headed(a));
    } else {
        assert((a + b).drop_last() =~= a + b.drop_last());
        lemma_headed_join(a, b.drop_last());
        assert(headed(a + b) =~= headed(a) + headed(b));
    }
    lemma_starts_join(headed(a), headed(b));
}

proof fn lemma_starts_join(a: Seq<Seq<u8>>, b: Seq<Seq<u8>>)
    ensures
        starts_afresh(a + b) == (starts_afresh(a) || starts_afresh(b)),
{
    let both = a + b;
    if starts_afresh(a) {
        let i = choose|i: int| 0 <= i < a.len() && 19 <= (#[trigger] a[i])[0] / 2 % 64 <= 21;
        assert(both[i] == a[i]);
    }
    if starts_afresh(b) {
        let i = choose|i: int| 0 <= i < b.len() && 19 <= (#[trigger] b[i])[0] / 2 % 64 <= 21;
        assert(both[a.len() + i] == b[i]);
    }
    if starts_afresh(both) {
        let i = choose|i: int| 0 <= i < both.len() && 19 <= (#[trigger] both[i])[0] / 2 % 64 <= 21;
        if i < a.len() {
            assert(a[i] == both[i]);
        } else {
            assert(b[i - a.len()] == both[i]);
        }
    }
}

proof fn lemma_taking_all(state: ReceiverView, nals: Seq<Seq<u8>>)
    ensures
        ({
            let after = state.taking_all(nals).0;
            &&& after.unit == state.unit + headed(nals)
            &&& after.unit_is_key == (state.unit_is_key || starts_afresh(headed(nals)))
            &&& after.unit_is_corrupt == state.unit_is_corrupt
            &&& after.fragment == state.fragment
            &&& after.last_seq == state.last_seq
            &&& after.refresh == state.refresh
        }),
    decreases nals.len(),
{
    if nals.len() == 0 {
        assert(state.unit + headed(nals) =~= state.unit);
    } else {
        let shorter = nals.drop_last();
        let nal = nals.last();
        lemma_taking_all(state, shorter);
        lemma_kind(nal);
        if nal.len() >= 2 {
            lemma_starts_join(headed(shorter), seq![nal]);
            assert(headed(nals) =~= headed(shorter) + seq![nal]);
            assert(starts_afresh(seq![nal]) == (19 <= nal[0] / 2 % 64 <= 21)) by {
                assert(seq![nal][0] == nal);
            }
        }
        assert(state.taking_all(nals).0.unit =~= state.unit + headed(nals));
    }
}

/// What one packet without marker does, where none is missing before it.
proof fn lemma_unmarked_packet(state: ReceiverView, seq: u16, payload: Seq<u8>, now: u64)
    requires
        !state.unit_is_corrupt,
        !state.gap_before(seq),
    ensures
        ({
            let (after, events) = received(state, (seq, false, payload), now);
            let (fragment, nals) = hevc::depacketized(state.fragment, payload);
            &&& after.unit == state.unit + headed(nals)
            &&& after.unit_is_key == (state.unit_is_key || starts_afresh(headed(nals)))
            &&& !after.unit_is_corrupt
            &&& after.fragment == fragment
            &&& after.last_seq == Some(state.newest(seq))
            &&& pictures_in(events) == Seq::<(Seq<u8>, bool)>::empty()
        }),
{
    reveal(received);
    let (fragment, nals) = hevc::depacketized(state.fragment, payload);
    let counted = ReceiverView {
        stats: state.stats.counted(seq),
        unit_is_corrupt: false,
        last_seq: Some(state.newest(seq)),
        fragment,
        ..state
    };
    lemma_taking_all(counted, nals);
    lemma_taking_all_delivers_nothing(counted, nals);
    lemma_no_pictures(counted.taking_all(nals).1);
}

/// The state after the packets of a picture up to the marker.
proof fn lemma_unmarked(
    state: ReceiverView,
    first: u16,
    payloads: Seq<Seq<u8>>,
    n: int,
    now: u64,
)
    requires
        0 <= n < payloads.len(),
        !state.unit_is_corrupt && !state.unit_is_key && state.unit.len() == 0,
        !state.gap_before(first),
    ensures
        ({
            let (after, events) = receiving_all(state, picture_packets(first, payloads).take(n), now);
            let (fragment, nals) = hevc::depacketized_all(state.fragment, payloads.take(n));
            &&& after.unit == headed(nals)
            &&& after.unit_is_key == starts_afresh(headed(nals))
            &&& !after.unit_is_corrupt
            &&& after.fragment == fragment
            &&& !after.gap_before(((first + n) % 0x1_0000) as u16)
            &&& pictures_in(events) == Seq::<(Seq<u8>, bool)>::empty()
        }),
    decreases n,
{
    let packets = picture_packets(first, payloads);
    let nothing = Seq::<(Seq<u8>, bool)>::empty();
    if n == 0 {
        assert(packets.take(0) =~= Seq::<(u16, bool, Seq<u8>)>::empty());
        assert(payloads.take(0) =~= Seq::<Seq<u8>>::empty());
        assert(state.unit =~= headed(Seq::empty()));
    } else {
        lemma_unmarked(state, first, payloads, n - 1, now);
        let so_far = packets.take(n);
        assert(so_far.drop_last() =~= packets.take(n - 1));
        assert(payloads.take(n).drop_last() =~= payloads.take(n - 1));
        let (before, events) = receiving_all(state, packets.take(n - 1), now);
        let seq = ((first + n - 1) % 0x1_0000) as u16;
        let payload = payloads[n - 1];
        assert(so_far.last() == (seq, false, payload));
        assert(payloads.take(n).last() == payload);
        let done = hevc::depacketized_all(state.fragment, payloads.take(n - 1));
        let (after, more) = received(before, (seq, false, payload), now);
        let nals = hevc::depacketized(before.fragment, payload).1;
        assert(receiving_all(state, so_far, now) == (after, events + more));
        assert(hevc::depacketized_all(state.fragment, payloads.take(n)).1 == done.1 + nals);
        lemma_unmarked_packet(before, seq, payload, now);
        lemma_pictures_join(events, more);
        assert(nothing + nothing =~= nothing);
        lemma_headed_join(done.1, nals);
        lemma_next_sequence(before, first, n - 1);
    }
}

proof fn lemma_next_sequence(state: ReceiverView, first: u16, i: int)
    requires
        0 <= i,
        !state.gap_before(((first + i) % 0x1_0000) as u16),
    ensures
        state.newest(((first + i) % 0x1_0000) as u16) == ((first + i) % 0x1_0000) as u16,
        (((first + i) % 0x1_0000) + 1) % 0x1_0000 == (first + i + 1) % 0x1_0000,
{
    let seq = ((first + i) % 0x1_0000) as u16;
    if let Some(previous) = state.last_seq {
        assert((seq - previous) % 0x1_0000 == 1) by {
            if previous == 0xFFFF {
                assert(seq == 0);
            } else {
                assert(seq == previous + 1);
            }
        }
    }
}

/// A picture that arrives whole is delivered, once and whole. Where its packets come
/// one after the other, the last with the marker, exactly one picture goes to the
/// viewers: it unpacks to the NAL units that the packets carry, in their order, and
/// is a key one exactly where one of them is an IDR or a CRA. Then everything is
/// ready for the next.
pub proof fn law_a_picture_that_arrives_is_delivered(
    state: ReceiverView,
    first: u16,
    payloads: Seq<Seq<u8>>,
    now: u64,
)
    requires
        payloads.len() > 0,
        !state.unit_is_corrupt && !state.unit_is_key && state.unit.len() == 0,
        state.last_seq matches Some(previous) ==> first == (previous + 1) % 0x1_0000,
        forall|i: int|
            0 <= i < headed(hevc::depacketized_all(state.fragment, payloads).1).len() ==> (
            #[trigger] headed(hevc::depacketized_all(state.fragment, payloads).1)[i]).len()
                <= u32::MAX,
    ensures
        ({
            let (after, events) = receiving_all(state, picture_packets(first, payloads), now);
            let nals = headed(hevc::depacketized_all(state.fragment, payloads).1);
            let pictures = pictures_in(events);
            &&& nals.len() > 0 ==> {
                &&& pictures.len() == 1
                &&& video::unpacked(pictures[0].0, 0) == nals
                &&& pictures[0].1 == starts_afresh(nals)
                &&& after.last_au == now
                &&& starts_afresh(nals) ==> after.streaming
            }
            &&& nals.len() == 0 ==> pictures.len() == 0
            &&& !after.unit_is_corrupt && !after.unit_is_key && after.unit.len() == 0
            &&& after.last_seq == Some(((first + payloads.len() - 1) % 0x1_0000) as u16)
        }),
{
    let packets = picture_packets(first, payloads);
    let n = payloads.len() - 1;
    lemma_unmarked(state, first, payloads, n, now);
    assert(packets.drop_last() =~= packets.take(n));
    assert(payloads.drop_last() =~= payloads.take(n));
    let (before, events) = receiving_all(state, packets.take(n), now);
    let seq = ((first + n) % 0x1_0000) as u16;
    let payload = payloads[n];
    assert(packets.last() == (seq, true, payload));
    assert(payloads.last() == payload);
    let done = hevc::depacketized_all(state.fragment, payloads.take(n));
    let nals = hevc::depacketized(before.fragment, payload).1;
    let more = received(before, (seq, true, payload), now).1;
    lemma_headed_join(done.1, nals);
    lemma_next_sequence(before, first, n);
    lemma_marked_packet(before, seq, payload, now);
    lemma_pictures_join(events, more);
    let nothing = Seq::<(Seq<u8>, bool)>::empty();
    assert(nothing + pictures_in(more) =~= pictures_in(more));
    let all = headed(hevc::depacketized_all(state.fragment, payloads).1);
    assert(before.unit + headed(nals) == all);
    video::law_packed_unit_unpacks(all);
}

/// What the last packet of a picture does, where none is missing.
proof fn lemma_marked_packet(state: ReceiverView, seq: u16, payload: Seq<u8>, now: u64)
    requires
        !state.unit_is_corrupt,
        !state.gap_before(seq),
        state.unit_is_key == starts_afresh(state.unit),
    ensures
        ({
            let (after, events) = received(state, (seq, true, payload), now);
            let all = state.unit + headed(hevc::depacketized(state.fragment, payload).1);
            let none = Seq::<(Seq<u8>, bool)>::empty();
            &&& !after.unit_is_corrupt && !after.unit_is_key && after.unit.len() == 0
            &&& after.last_seq == Some(state.newest(seq))
            &&& all.len() > 0 ==> after.last_au == now && (starts_afresh(all) ==> after.streaming)
            &&& pictures_in(events) == if all.len() > 0 {
                seq![(video::packed(all), starts_afresh(all))]
            } else {
                none
            }
        }),
{
    reveal(received);
    let (fragment, nals) = hevc::depacketized(state.fragment, payload);
    let counted = ReceiverView {
        stats: state.stats.counted(seq),
        unit_is_corrupt: false,
        last_seq: Some(state.newest(seq)),
        fragment,
        ..state
    };
    lemma_taking_all(counted, nals);
    lemma_taking_all_delivers_nothing(counted, nals);
    lemma_starts_join(state.unit, headed(nals));
    let (taken, said) = counted.taking_all(nals);
    let closing = taken.closing(now).1;
    lemma_no_pictures(said);
    lemma_pictures_join(said, closing);
    let none = Seq::<VideoEventView>::empty();
    let nothing = Seq::<(Seq<u8>, bool)>::empty();
    assert(pictures_in(none) =~= nothing);
    let all = state.unit + headed(nals);
    if all.len() > 0 {
        assert(closing.drop_last() =~= none);
        assert(pictures_in(closing) =~= seq![(video::packed(all), starts_afresh(all))]);
    } else {
        assert(closing =~= none);
    }
    assert(nothing + pictures_in(closing) =~= pictures_in(closing));
}

/// A picture that was lost is made good: at its end a fresh one is asked for, unless
/// one was asked for a moment ago, and the next picture starts unspoilt.
pub proof fn law_a_lost_picture_is_made_good(
    state: ReceiverView,
    seq: u16,
    payload: Seq<u8>,
    now: u64,
)
    requires
        state.unit_is_corrupt || (state.last_seq matches Some(previous) && seq != (previous + 1)
            % 0x1_0000),
    ensures
        ({
            let (after, events) = state.receiving(seq, true, payload, now);
            &&& !after.unit_is_corrupt && !after.unit_is_key && after.unit.len() == 0
            &&& now - state.refresh.last_refresh >= KEYFRAME_MIN_INTERVAL ==> events.len() > 0
                && (match events.last() {
                VideoEventView::Rtcp { reason, .. } => reason == RefreshReason::AuDrop,
                _ => false,
            })
        }),
{
    let gap = state.gap_before(seq);
    let (fragment, nals) = hevc::depacketized(
        if gap {
            None
        } else {
            state.fragment
        },
        payload,
    );
    let counted = ReceiverView {
        stats: state.stats.counted(seq),
        unit_is_corrupt: true,
        last_seq: Some(state.newest(seq)),
        fragment,
        ..state
    };
    lemma_taking_all(counted, nals);
}

/// Viewers always know what the stream is. Once the parameter sets describe a codec,
/// what was announced last is what they describe, and neither that nor the frame size
/// ever changes without being announced.
pub proof fn law_viewers_know_the_codec(state: ReceiverView, nal: Seq<u8>)
    requires
        nal.len() >= 2,
        state.sets.dimensions is None || 32 <= nal[0] / 2 % 64 <= 34,
    ensures
        ({
            let (after, events) = state.taking(nal);
            &&& after.sets.described() is Some ==> after.last_codec == after.sets.described()
            &&& after.last_codec != state.last_codec ==> after.last_codec is Some && exists|i: int|
                0 <= i < events.len() && #[trigger] events[i] == VideoEventView::Codec(
                    after.last_codec->0,
                )
            &&& after.sets.dimensions matches Some((width, height)) ==> exists|i: int|
                0 <= i < events.len() && #[trigger] events[i] == (VideoEventView::Geometry {
                    width,
                    height,
                })
            &&& forall|i: int|
                0 <= i < events.len() ==> match #[trigger] events[i] {
                    VideoEventView::Codec(codec) => after.sets.described() == Some(codec),
                    VideoEventView::Geometry { width, height } => after.sets.dimensions == Some(
                        (width, height),
                    ),
                    _ => false,
                }
        }),
{
    lemma_kind(nal);
    let (after, events) = state.taking(nal);
    let sized = after.sets.dimensions is Some;
    if sized {
        assert(events[0] is Geometry);
    }
    if after.last_codec != state.last_codec {
        let at = if sized {
            1int
        } else {
            0
        };
        assert(events[at] == VideoEventView::Codec(after.last_codec->0));
    }
}

/// Whatever asks for a fresh IDR (a packet, a tick or a viewer), no request goes
/// out before the floor since the last one has passed, at most one goes out at a
/// time, and the moment at which one does is the one that the next waits from.
pub proof fn law_keyframe_requests_are_rate_limited(
    state: ReceiverView,
    seq: u16,
    marker: bool,
    payload: Seq<u8>,
    now: u64,
)
    ensures
        rate_limited(state, state.receiving(seq, marker, payload, now), now),
        rate_limited(state, state.ticking(now), now),
        rate_limited(state, state.requesting(RefreshReason::Viewer, now), now),
{
    let gap = state.gap_before(seq);
    let (fragment, nals) = hevc::depacketized(
        if gap {
            None
        } else {
            state.fragment
        },
        payload,
    );
    let start = ReceiverView {
        stats: state.stats.counted(seq),
        unit_is_corrupt: state.unit_is_corrupt || gap,
        last_seq: Some(state.newest(seq)),
        fragment,
        ..state
    };
    let tick = state.ticking(now).1;
    assert(tick.len() > 0 ==> tick[0] is Rtcp);
    let viewer = state.requesting(RefreshReason::Viewer, now).1;
    assert(viewer.len() > 0 ==> viewer[0] is Rtcp);
    lemma_taking_all_delivers_nothing(start, nals);
    let (taken, events) = start.taking_all(nals);
    if marker {
        let more = taken.closing(now).1;
        assert forall|i: int, j: int|
            0 <= i < j < (events + more).len() implies !((#[trigger] (events + more)[i]) is Rtcp
            && (#[trigger] (events + more)[j]) is Rtcp) by {
            if i < events.len() {
                assert((events + more)[i] == events[i]);
            }
        }
        if exists|i: int| 0 <= i < (events + more).len() && (events + more)[i] is Rtcp {
            let i = choose|i: int| 0 <= i < (events + more).len() && (events + more)[i] is Rtcp;
            if i < events.len() {
                assert((events + more)[i] == events[i]);
            } else {
                assert((events + more)[i] == more[i - events.len()]);
            }
        } else {
            assert(more.len() > 0 ==> (events + more)[events.len() as int] == more[0]);
        }
    }
}

/// That a step sent at most one request for a fresh IDR, and that only after the
/// floor had passed.
pub open spec fn rate_limited(
    state: ReceiverView,
    outcome: (ReceiverView, Seq<VideoEventView>),
    now: u64,
) -> bool {
    let (after, events) = outcome;
    if exists|i: int| 0 <= i < events.len() && events[i] is Rtcp {
        &&& clock::since(now, state.refresh.last_refresh) >= KEYFRAME_MIN_INTERVAL
        &&& after.refresh.last_refresh == now
        &&& forall|i: int, j: int|
            0 <= i < j < events.len() ==> !((#[trigger] events[i]) is Rtcp && (
            #[trigger] events[j]) is Rtcp)
    } else {
        after.refresh.last_refresh == state.refresh.last_refresh
    }
}

/// A parameter set that is repeated is not announced again.
pub proof fn law_an_unchanged_description_is_not_announced_again(
    state: ReceiverView,
    nal: Seq<u8>,
)
    ensures
        ({
            let events = state.taking(nal).0.taking(nal).1;
            forall|i: int| 0 <= i < events.len() ==> !(#[trigger] events[i] is Codec)
        }),
{
    let once = state.taking(nal).0;
    if nal.len() >= 2 {
        assert(once.sets.after(nal) =~= once.sets);
    }
}

/// A keyframe adds nothing to the window that tells motion, so that a refresh
/// cannot set off the next one.
pub proof fn law_keyframes_do_not_count_as_motion(state: ReceiverView, now: u64)
    requires
        state.unit_is_key,
    ensures
        window_bytes(state.closing(now).0.window) <= window_bytes(state.window),
{
    lemma_recent_bytes(state.window, now);
}

proof fn lemma_recent_bytes(window: Seq<(u64, u64)>, now: u64)
    ensures
        window_bytes(recent(window, now)) <= window_bytes(window),
    decreases window.len(),
{
    if window.len() > 0 {
        lemma_recent_bytes(window.drop_first(), now);
        lemma_window_front(window);
    }
}

proof fn lemma_window_front(window: Seq<(u64, u64)>)
    requires
        window.len() > 0,
    ensures
        window_bytes(window) == window[0].1 + window_bytes(window.drop_first()),
    decreases window.len(),
{
    if window.len() == 1 {
        assert(window.drop_last() =~= Seq::<(u64, u64)>::empty());
        assert(window.drop_first() =~= Seq::<(u64, u64)>::empty());
    } else {
        lemma_window_front(window.drop_last());
        assert(window.drop_last().drop_first() =~= window.drop_first().drop_last());
    }
}

/// What the device is told of the features that its viewer supports.
pub const CLIENT_SUPPORTED_FEATURES: u64 = 140;

/// One of the two streams of a session.
#[derive(Debug, Clone, Copy, PartialEq, Eq, Structural)]
pub enum StreamKind {
    Audio,
    Video,
}

/// What a device is asked to start.
#[derive(Debug, Clone, Copy, PartialEq, Eq, Structural)]
pub struct StreamRequest {
    pub kind: StreamKind,
    /// The port that the device sends from.
    pub sender_port: u16,
    pub features: u64,
    /// Which display to mirror, of a video stream.
    pub display_id: Option<i64>,
}

/// What a device is asked to start, in order. Audio comes first: it establishes
/// the session, and without it the device finds no rules for the video.
pub open spec fn requests_for(display_id: i64) -> Seq<StreamRequest> {
    seq![
        StreamRequest {
            kind: StreamKind::Audio,
            sender_port: 50000,
            features: CLIENT_SUPPORTED_FEATURES,
            display_id: None,
        },
        StreamRequest {
            kind: StreamKind::Video,
            sender_port: 50001,
            features: CLIENT_SUPPORTED_FEATURES,
            display_id: Some(display_id),
        },
    ]
}

/// What a device is asked to start, in order.
pub fn stream_requests(display_id: i64) -> (requests: Vec<StreamRequest>)
    ensures
        requests@ == requests_for(display_id),
{
    let mut requests: Vec<StreamRequest> = Vec::new();
    requests.push(
        StreamRequest {
            kind: StreamKind::Audio,
            sender_port: 50000,
            features: CLIENT_SUPPORTED_FEATURES,
            display_id: None,
        },
    );
    requests.push(
        StreamRequest {
            kind: StreamKind::Video,
            sender_port: 50001,
            features: CLIENT_SUPPORTED_FEATURES,
            display_id: Some(display_id),
        },
    );
    assert(requests@ =~= requests_for(display_id));
    requests
}

/// What the viewer says it is: the values of an offer that the device accepts.
pub struct CallInfo {
    pub call_id: u32,
    pub client_version: u32,
    pub device_type: &'static str,
    pub framework_version: &'static str,
    pub os_version: &'static str,
}

/// What the viewer says it is.
pub fn call_info() -> (info: CallInfo)
    ensures
        info.call_id == 0,
        info.client_version == 1,
        info.device_type@ == "Mac17,7"@,
        info.framework_version@ == "2205.3.1"@,
        info.os_version@ == "25F71"@,
{
    CallInfo {
        call_id: 0,
        client_version: 1,
        device_type: "Mac17,7",
        framework_version: "2205.3.1",
        os_version: "25F71",
    }
}

/// What keeps a session going: it ends with whichever of them ends first.
#[derive(Debug, Clone, Copy, PartialEq, Eq, Structural)]
pub enum MediaTask {
    /// Receive the video of this stream.
    Receive(StreamIdentity),
    /// Tell the device that somebody listens to this stream.
    Liveness(StreamKind, StreamIdentity),
    /// Watch for a stream that has stalled.
    Watchdog,
}

/// What keeps a session going, from the two answers. The audio has the same
/// timeout as the video, and the device reaps the whole session with it.
pub open spec fn tasks_for(video: StreamIdentity, audio: Option<StreamIdentity>) -> Seq<MediaTask> {
    let first = seq![MediaTask::Receive(video), MediaTask::Liveness(StreamKind::Video, video)];
    match audio {
        Some(audio) => first + seq![
            MediaTask::Liveness(StreamKind::Audio, audio),
            MediaTask::Watchdog,
        ],
        None => first + seq![MediaTask::Watchdog],
    }
}

/// What keeps a session going, or that there is no video to be had.
pub fn media_tasks(video: Option<StreamIdentity>, audio: Option<StreamIdentity>) -> (tasks: Result<
    Vec<MediaTask>,
    &'static str,
>)
    ensures
        match tasks {
            Ok(tasks) => video is Some && tasks@ == tasks_for(video->0, audio),
            Err(error) => video is None && error@ == "video streamConfig carried no RTCP endpoint"@,
        },
{
    let video = match video {
        Some(video) => video,
        None => {
            return Err("video streamConfig carried no RTCP endpoint");
        },
    };
    let mut tasks: Vec<MediaTask> = Vec::new();
    tasks.push(MediaTask::Receive(video));
    tasks.push(MediaTask::Liveness(StreamKind::Video, video));
    if let Some(audio) = audio {
        tasks.push(MediaTask::Liveness(StreamKind::Audio, audio));
    }
    tasks.push(MediaTask::Watchdog);
    assert(tasks@ =~= tasks_for(video, audio));
    Ok(tasks)
}

/// The times that a stream is run by: a fresh key frame is asked for at most every
/// seven tenths of a second, every second while the screen moves, after a second and a
/// half of quiet and every ten seconds at rest; the device hears of its viewer every
/// second; and a stream is given up after five seconds of silence, or thirty before its
/// first picture.
pub proof fn law_a_stream_is_run_by_these_times()
    ensures
        10 * KEYFRAME_MIN_INTERVAL == 7 * clock::SECOND,
        MOTION_IDR_INTERVAL == clock::SECOND,
        2 * SETTLE_QUIET == 3 * clock::SECOND,
        REFRESH_HEARTBEAT == 10 * clock::SECOND,
        RTCP_INTERVAL == clock::SECOND,
        STALL_TIMEOUT == 5 * clock::SECOND,
        FIRST_FRAME_TIMEOUT == 30 * clock::SECOND,
        MOTION_THRESHOLD_BPS == 200_000,
        clock::SECOND == 1000 * clock::MILLISECOND,
        clock::SECOND == 1_000_000_000,
{
}

/// What a tick asks for, and when. A screen that has moved for a second, by two hundred
/// thousand bytes in each, is refreshed as a moving one, once a second; one that has
/// been quiet for a second and a half as a settled one; one that is quiet and was not
/// refreshed for ten seconds in any case; and none where that is switched off.
pub proof fn law_a_tick_refreshes_for_a_reason(state: ReceiverView, now: u64)
    ensures
        ({
            let (after, events) = state.ticking(now);
            let moving = window_bytes(recent(state.window, now)) >= 200_000;
            let waited = now - state.refresh.last_refresh;
            let asked = |why: RefreshReason| events.len() == 1 && (match events[0] {
                VideoEventView::Rtcp { reason, .. } => reason == why,
                _ => false,
            });
            &&& !state.refresh.motion_idr ==> after == state && events.len() == 0
            &&& state.refresh.motion_idr ==> {
                &&& moving ==> after.refresh.quiet_since is None
                &&& !moving ==> after.refresh.motion_since is None
                &&& moving && state.refresh.motion_since is None ==> after.refresh.motion_since
                    == Some(now)
                &&& !moving && state.refresh.quiet_since is None ==> after.refresh.quiet_since
                    == Some(now)
                &&& (moving && (state.refresh.motion_since matches Some(since) && now - since
                    >= 1_000_000_000) && waited >= 1_000_000_000) ==> asked(RefreshReason::Motion)
                &&& (!moving && (state.refresh.quiet_since matches Some(since) && now - since
                    >= 1_500_000_000) && waited >= 1_500_000_000) ==> asked(RefreshReason::Settled)
                &&& (!moving && state.refresh.quiet_since is None && waited >= 10_000_000_000)
                    ==> asked(RefreshReason::Heartbeat)
                &&& waited < 700_000_000 ==> events.len() == 0
                &&& (moving && state.refresh.motion_since is None) ==> events.len() == 0
                &&& (!moving && state.refresh.quiet_since is None && waited < 10_000_000_000)
                    ==> events.len() == 0
            }
        }),
{
}

/// A picture that is no key one counts as motion with all its bytes.
pub proof fn law_delta_pictures_count_as_motion(state: ReceiverView, now: u64)
    requires
        !state.unit_is_corrupt && !state.unit_is_key && state.unit.len() > 0,
        state.window.len() == 0,
        video::packed(state.unit).len() <= u64::MAX,
    ensures
        window_bytes(state.closing(now).0.window) == video::packed(state.unit).len(),
{
    let one = (now, video::packed(state.unit).len() as u64);
    let window = state.window.push(one);
    assert(window =~= seq![one]);
    assert(recent(window, now) == window);
    assert(window.drop_last() =~= Seq::<(u64, u64)>::empty());
    assert(window_bytes(window.drop_last()) == 0);
}

/// What a receiver reports is what it counted: the loss, as far as twenty-four bits
/// hold it, the highest sequence number and the jitter, of the stream that it is about.
pub proof fn law_a_report_says_what_was_counted(source: u32, stats: RtpStats)
    ensures
        ({
            let report = report_of(source, stats);
            &&& report.source_ssrc == source
            &&& stats.lost < 0x100_0000 ==> report.cumulative_lost == stats.lost
            &&& stats.lost >= 0x100_0000 ==> report.cumulative_lost == 0xFF_FFFF
            &&& stats.highest_seq <= u32::MAX ==> report.highest_seq == stats.highest_seq
            &&& stats.jitter <= u32::MAX ==> report.jitter == stats.jitter
            &&& report.fraction_lost == 0 && report.lsr == 0 && report.dlsr == 0
        }),
{
}

/// The two ends of a stream are not mixed up: what the device calls remote is ours and
/// what it calls local is its own. Without both of them and a port there is no stream.
pub proof fn law_the_ends_are_not_mixed_up(ours: u32, theirs: u32, port: u16)
    ensures
        ours > 0 && theirs > 0 && port > 0 ==> identity_of(
            Some(ours as u64),
            Some(theirs as u64),
            Some(port as u64),
        ) == Some(StreamIdentity { local_ssrc: ours, remote_ssrc: theirs, rtcp_port: port }),
        ours == 0 || theirs == 0 || port == 0 ==> identity_of(
            Some(ours as u64),
            Some(theirs as u64),
            Some(port as u64),
        ) is None,
        identity_of(None, Some(theirs as u64), Some(port as u64)) is None,
        identity_of(Some(ours as u64), None, Some(port as u64)) is None,
        identity_of(Some(ours as u64), Some(theirs as u64), None) is None,
{
}

/// The video of a session is received and watched, and the device hears of a viewer on
/// every stream that it answered for.
pub proof fn law_every_stream_is_kept_alive(video: StreamIdentity, audio: Option<StreamIdentity>)
    ensures
        tasks_for(video, audio).contains(MediaTask::Receive(video)),
        tasks_for(video, audio).contains(MediaTask::Liveness(StreamKind::Video, video)),
        tasks_for(video, audio).contains(MediaTask::Watchdog),
        audio matches Some(audio) ==> tasks_for(video, Some(audio)).contains(
            MediaTask::Liveness(StreamKind::Audio, audio),
        ),
{
    let tasks = tasks_for(video, audio);
    assert(tasks[0] == MediaTask::Receive(video));
    assert(tasks[1] == MediaTask::Liveness(StreamKind::Video, video));
    assert(tasks.last() == MediaTask::Watchdog);
    if let Some(audio) = audio {
        assert(tasks[2] == MediaTask::Liveness(StreamKind::Audio, audio));
    }
}

/// A report says in its places who sends it, of whom, and what was counted, and names
/// its sender again in the description behind it.
pub proof fn law_a_report_reads_back(ours: u32, block: ReportBlock)
    requires
        block.cumulative_lost <= 0xFF_FFFF,
    ensures
        ({
            let packet = liveness_packet(ours, block);
            &&& packet.len() == 44
            &&& packet[0] == 0x81 && packet[1] == 201
            &&& (wire::be16_at(packet, 2) + 1) * 4 == 32
            &&& wire::be32_at(packet, 4) == ours
            &&& wire::be32_at(packet, 8) == block.source_ssrc
            &&& packet[12] == block.fraction_lost
            &&& packet[13] * 0x1_0000 + wire::be16_at(packet, 14) == block.cumulative_lost
            &&& wire::be32_at(packet, 16) == block.highest_seq
            &&& wire::be32_at(packet, 20) == block.jitter
            &&& wire::be32_at(packet, 24) == block.lsr
            &&& wire::be32_at(packet, 28) == block.dlsr
            &&& packet[32] == 0x81 && packet[33] == 202
            &&& (wire::be16_at(packet, 34) + 1) * 4 == packet.len() - 32
            &&& wire::be32_at(packet, 36) == ours
        }),
{
    let packet = liveness_packet(ours, block);
    let lost = wire::be32(block.cumulative_lost);
    let none = Seq::<u8>::empty();
    wire::law_be32_reads_back(ours, none, none);
    wire::law_be32_reads_back(block.source_ssrc, none, none);
    wire::law_be32_reads_back(block.highest_seq, none, none);
    wire::law_be32_reads_back(block.jitter, none, none);
    wire::law_be32_reads_back(block.lsr, none, none);
    wire::law_be32_reads_back(block.dlsr, none, none);
    wire::law_be32_reads_back(block.cumulative_lost, none, none);
    assert(none + lost + none =~= lost);
    assert(lost.len() == 4);
    assert(packet.subrange(4, 8) =~= none + wire::be32(ours) + none);
    assert(packet.subrange(8, 12) =~= none + wire::be32(block.source_ssrc) + none);
    assert(packet.subrange(13, 16) =~= lost.subrange(1, 4));
    assert(packet.subrange(16, 20) =~= none + wire::be32(block.highest_seq) + none);
    assert(packet.subrange(20, 24) =~= none + wire::be32(block.jitter) + none);
    assert(packet.subrange(24, 28) =~= none + wire::be32(block.lsr) + none);
    assert(packet.subrange(28, 32) =~= none + wire::be32(block.dlsr) + none);
    assert(packet.subrange(36, 40) =~= none + wire::be32(ours) + none);
    lemma_word_in(packet, 4);
    lemma_word_in(packet, 8);
    lemma_word_in(packet, 16);
    lemma_word_in(packet, 20);
    lemma_word_in(packet, 24);
    lemma_word_in(packet, 28);
    lemma_word_in(packet, 36);
    assert(packet[13] == lost[1] && packet[14] == lost[2] && packet[15] == lost[3]) by {
        assert(packet[13] == packet.subrange(13, 16)[0]);
        assert(packet[14] == packet.subrange(13, 16)[1]);
        assert(packet[15] == packet.subrange(13, 16)[2]);
    }
    assert(lost[0] == 0);
}

proof fn lemma_word_in(packet: Seq<u8>, at: int)
    requires
        0 <= at,
        at + 4 <= packet.len(),
    ensures
        wire::be32_at(packet.subrange(at, at + 4), 0) == wire::be32_at(packet, at),
{
    let word = packet.subrange(at, at + 4);
    assert(word[0] == packet[at] && word[1] == packet[at + 1]);
    assert(word[2] == packet[at + 2] && word[3] == packet[at + 3]);
}

/// A key picture is asked for in both ways that there are, behind a report: of the same
/// sender, with the number that tells one request from the next.
pub proof fn law_a_key_picture_is_asked_for_both_ways(
    ours: u32,
    theirs: u32,
    block: ReportBlock,
    number: u8,
)
    ensures
        ({
            let packet = keyframe_packet(ours, theirs, block, number);
            &&& packet.len() == 76
            &&& packet.take(44) == liveness_packet(ours, block)
            &&& packet[44] == 0x81 && packet[45] == 206
            &&& (wire::be16_at(packet, 46) + 1) * 4 == 12
            &&& wire::be32_at(packet, 48) == ours
            &&& wire::be32_at(packet, 52) == theirs
            &&& packet[56] == 0x84 && packet[57] == 206
            &&& (wire::be16_at(packet, 58) + 1) * 4 == packet.len() - 56
            &&& wire::be32_at(packet, 60) == ours
            &&& wire::be32_at(packet, 68) == theirs
            &&& packet[72] == number
        }),
{
    let packet = keyframe_packet(ours, theirs, block, number);
    let none = Seq::<u8>::empty();
    let report = liveness_packet(ours, block);
    wire::law_be32_reads_back(ours, none, none);
    wire::law_be32_reads_back(theirs, none, none);
    assert(report.len() == 44);
    assert(packet.take(44) =~= report);
    assert(packet.subrange(48, 52) =~= none + wire::be32(ours) + none);
    assert(packet.subrange(52, 56) =~= none + wire::be32(theirs) + none);
    assert(packet.subrange(60, 64) =~= none + wire::be32(ours) + none);
    assert(packet.subrange(68, 72) =~= none + wire::be32(theirs) + none);
    lemma_word_in(packet, 48);
    lemma_word_in(packet, 52);
    lemma_word_in(packet, 60);
    lemma_word_in(packet, 68);
}

/// A picture is asked for as well as its sound, each at its own port, and only the
/// picture has a display.
pub proof fn law_sound_and_picture_are_both_asked_for(display: i64)
    ensures
        ({
            let asked = requests_for(display);
            &&& asked.len() == 2
            &&& asked[0].kind == StreamKind::Audio && asked[1].kind == StreamKind::Video
            &&& asked[0].sender_port == 50000 && asked[1].sender_port == 50001
            &&& asked[0].display_id is None && asked[1].display_id == Some(display)
        }),
{
}

/// Whether a stream has gone without a picture for too long.
pub open spec fn has_stalled(streaming: bool, last_au: u64, now: u64) -> bool {
    clock::since(now, last_au) > if streaming {
        STALL_TIMEOUT
    } else {
        FIRST_FRAME_TIMEOUT
    }
}

/// A stream that runs may pause for five seconds, and one that has yet to begin has
/// thirty.
pub proof fn law_a_first_picture_may_take_longer(last_au: u64, now: u64)
    requires
        last_au <= now,
    ensures
        has_stalled(true, last_au, now) == (now - last_au > 5_000_000_000),
        has_stalled(false, last_au, now) == (now - last_au > 30_000_000_000),
{
}

} // verus!
