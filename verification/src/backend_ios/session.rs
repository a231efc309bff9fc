//! The supervision of a device session.
//!
//! Tunnel, media and HID are built and torn down together, because they are not
//! independent: the HID surfaces authenticate against the live media stream, so
//! a media restart invalidates them, and a tunnel drop invalidates everything.

use crate::backend_ios::ddi;
use crate::backend_ios::ddi::MountOutcome;
use crate::clock::{MILLISECOND, SECOND};
use vstd::prelude::*;

verus! {

/// Delay before rebuilding a session that dropped, so that an unplugged or
/// rebooting device does not spin the loop.
pub const RECONNECT_DELAY: u64 = 5 * SECOND;

/// The HID surfaces only authenticate once the media stream is up, and need a
/// moment to be matched again afterwards.
pub const HID_SETTLE: u64 = 300 * MILLISECOND;

/// What is to be done next.
#[derive(Debug, Clone, Copy, PartialEq, Eq, Structural)]
pub enum Stage {
    /// Find the device over USB.
    Locate,
    /// Read its version, and refuse one that is too old.
    CheckVersion,
    /// Have the developer disk image mounted.
    Mount,
    /// Open the tunnel and shake hands over it.
    OpenTunnel,
    /// Start the media session.
    StartMedia,
    /// Wait until the HID surfaces can be matched.
    Settle,
    /// Connect the HID surfaces.
    ConnectHid,
    /// Publish the session, and wait until media or HID ends.
    Serve,
    /// Close the tunnel.
    CloseTunnel,
    /// Say that the device is gone, and forget its session.
    Withdraw,
    /// Wait before the next attempt.
    Rest,
}

/// What came of it.
#[derive(Debug, Clone, Copy, PartialEq, Eq, Structural)]
pub enum Event {
    /// It is done; a session that was served has ended.
    Done,
    /// It did not work.
    Failed,
    /// An attempt to mount, at a time: how it came out, if it did not fail.
    MountTried(Option<MountOutcome>, u64),
}

/// The supervisor of one device.
#[derive(Debug, Clone, Copy, PartialEq, Eq, Structural)]
pub struct Supervisor {
    pub stage: Stage,
    /// Whether the device is published as usable.
    pub ready: bool,
    /// How many tunnels have come up.
    pub generation: u64,
    /// Whether the image is mounted on the device's behalf.
    pub auto_mount: bool,
    /// When the last mount failed.
    pub ddi_failed_at: Option<u64>,
}

/// What comes after a stage that worked.
pub open spec fn stage_after(stage: Stage, auto_mount: bool) -> Stage {
    match stage {
        Stage::Locate => Stage::CheckVersion,
        Stage::CheckVersion => if auto_mount {
            Stage::Mount
        } else {
            Stage::OpenTunnel
        },
        Stage::Mount => Stage::OpenTunnel,
        Stage::OpenTunnel => Stage::StartMedia,
        Stage::StartMedia => Stage::Settle,
        Stage::Settle => Stage::ConnectHid,
        Stage::ConnectHid => Stage::Serve,
        Stage::Serve => Stage::CloseTunnel,
        Stage::CloseTunnel => Stage::Withdraw,
        Stage::Withdraw => Stage::Rest,
        Stage::Rest => Stage::Locate,
    }
}

/// What comes after a stage that failed: the session is given up, except that a
/// device with nothing mounted may still do, and that what tears a session down
/// goes on regardless.
pub open spec fn stage_after_failure(stage: Stage) -> Stage {
    match stage {
        Stage::Mount => Stage::OpenTunnel,
        Stage::Serve => Stage::CloseTunnel,
        Stage::Withdraw => Stage::Rest,
        Stage::Rest => Stage::Locate,
        _ => Stage::Withdraw,
    }
}

impl Supervisor {
    /// The supervisor after an event.
    pub open spec fn after(self, event: Event) -> Supervisor {
        let stage = match event {
            Event::Failed => stage_after_failure(self.stage),
            _ => stage_after(self.stage, self.auto_mount),
        };
        Supervisor {
            stage,
            ready: if stage == Stage::Serve {
                true
            } else if stage == Stage::Rest {
                false
            } else {
                self.ready
            },
            generation: if self.stage != Stage::OpenTunnel || event == Event::Failed {
                self.generation
            } else if self.generation == u64::MAX {
                0
            } else {
                (self.generation + 1) as u64
            },
            auto_mount: self.auto_mount,
            ddi_failed_at: match event {
                Event::MountTried(outcome, now) => ddi::failure_after(
                    self.ddi_failed_at,
                    outcome,
                    now,
                ),
                _ => self.ddi_failed_at,
            },
        }
    }

    /// A device that is published is being served or torn down; it is no longer
    /// published once the supervisor rests, nor while it builds a session.
    pub open spec fn sound(self) -> bool {
        self.ready == (self.stage == Stage::Serve) || (self.ready && (self.stage
            == Stage::CloseTunnel || self.stage == Stage::Withdraw))
    }

    /// A device of which nothing is known.
    pub fn new(auto_mount: bool) -> (supervisor: Self)
        ensures
            supervisor == (Supervisor {
                stage: Stage::Locate,
                ready: false,
                generation: 0,
                auto_mount,
                ddi_failed_at: None,
            }),
    {
        Supervisor {
            stage: Stage::Locate,
            ready: false,
            generation: 0,
            auto_mount,
            ddi_failed_at: None,
        }
    }

    /// Take what came of the last thing that was done, and say what to do next.
    pub fn on_event(&mut self, event: Event) -> (next: Stage)
        ensures
            *final(self) == old(self).after(event),
            next == old(self).after(event).stage,
    {
        let failed = event == Event::Failed;
        let stage = if failed {
            match self.stage {
                Stage::Mount => Stage::OpenTunnel,
                Stage::Serve => Stage::CloseTunnel,
                Stage::Withdraw => Stage::Rest,
                Stage::Rest => Stage::Locate,
                _ => Stage::Withdraw,
            }
        } else {
            match self.stage {
                Stage::Locate => Stage::CheckVersion,
                Stage::CheckVersion => if self.auto_mount {
                    Stage::Mount
                } else {
                    Stage::OpenTunnel
                },
                Stage::Mount => Stage::OpenTunnel,
                Stage::OpenTunnel => Stage::StartMedia,
                Stage::StartMedia => Stage::Settle,
                Stage::Settle => Stage::ConnectHid,
                Stage::ConnectHid => Stage::Serve,
                Stage::Serve => Stage::CloseTunnel,
                Stage::CloseTunnel => Stage::Withdraw,
                Stage::Withdraw => Stage::Rest,
                Stage::Rest => Stage::Locate,
            }
        };
        if self.stage == Stage::OpenTunnel && !failed {
            self.generation = if self.generation == u64::MAX {
                0
            } else {
                self.generation + 1
            };
        }
        if let Event::MountTried(outcome, now) = event {
            self.ddi_failed_at = ddi::note_mount(self.ddi_failed_at, outcome, now);
        }
        if stage == Stage::Serve {
            self.ready = true;
        } else if stage == Stage::Rest {
            self.ready = false;
        }
        self.stage = stage;
        stage
    }
}

/// A device is published only while its session is up or being torn down,
/// whatever happens: it starts so and every event keeps it so. In particular it
/// reads as gone for the whole of the wait before the next attempt.
pub proof fn law_only_a_live_session_is_published(supervisor: Supervisor, event: Event)
    requires
        supervisor.sound(),
    ensures
        supervisor.after(event).sound(),
        supervisor.after(event).stage == Stage::Rest ==> !supervisor.after(event).ready,
{
}

/// The HID surfaces are connected only once the media session has been started
/// and has settled.
pub proof fn law_hid_waits_for_the_media(a: Supervisor, first: Event, second: Event)
    requires
        a.after(first).after(second).stage == Stage::ConnectHid,
    ensures
        a.after(first).stage == Stage::Settle,
        a.stage == Stage::StartMedia,
        first != Event::Failed,
        second != Event::Failed,
{
}

/// Whatever goes wrong while a session is built or served, the supervisor rests
/// and starts over.
pub proof fn law_every_failure_leads_to_another_attempt(
    supervisor: Supervisor,
    a: Event,
    b: Event,
    c: Event,
)
    requires
        supervisor.stage != Stage::Mount,
        supervisor.stage != Stage::Rest,
        supervisor.stage != Stage::Withdraw,
    ensures
        ({
            let given_up = supervisor.after(Event::Failed);
            let withdrawn = if given_up.stage == Stage::CloseTunnel {
                given_up.after(a)
            } else {
                given_up
            };
            &&& withdrawn.stage == Stage::Withdraw
            &&& withdrawn.after(b).stage == Stage::Rest
            &&& withdrawn.after(b).after(c).stage == Stage::Locate
        }),
{
}

/// The place of a stage in the life of a session.
pub open spec fn place_of(stage: Stage) -> int {
    match stage {
        Stage::Locate => 0,
        Stage::CheckVersion => 1,
        Stage::Mount => 2,
        Stage::OpenTunnel => 3,
        Stage::StartMedia => 4,
        Stage::Settle => 5,
        Stage::ConnectHid => 6,
        Stage::Serve => 7,
        Stage::CloseTunnel => 8,
        Stage::Withdraw => 9,
        Stage::Rest => 10,
    }
}

/// A session goes through its life stage by stage, and starts over at its end; only
/// where nothing is to be mounted is the mount left out. A mount that fails stops
/// nothing, and each tunnel that opens starts a new generation.
pub proof fn law_a_session_goes_stage_by_stage(supervisor: Supervisor, event: Event)
    ensures
        ({
            let after = supervisor.after(event);
            let here = place_of(supervisor.stage);
            &&& event != Event::Failed && !(supervisor.stage == Stage::CheckVersion
                && !supervisor.auto_mount) ==> place_of(after.stage) == (here + 1) % 11
            &&& event != Event::Failed && supervisor.stage == Stage::CheckVersion
                && !supervisor.auto_mount ==> after.stage == Stage::OpenTunnel
            &&& event == Event::Failed && supervisor.stage == Stage::Mount ==> after.stage
                == Stage::OpenTunnel
            &&& event == Event::Failed && here < 7 && supervisor.stage != Stage::Mount
                ==> after.stage == Stage::Withdraw
            &&& after.auto_mount == supervisor.auto_mount
            &&& supervisor.generation < u64::MAX ==> after.generation == supervisor.generation + (
            if supervisor.stage == Stage::OpenTunnel && event != Event::Failed {
                1int
            } else {
                0
            })
            &&& after.stage == Stage::Serve ==> after.ready
        }),
{
}

} // verus!
