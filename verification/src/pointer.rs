//! The finger on the glass.
//!
//! A pointer is a state machine, not a sequence of independent gestures: down,
//! move and up map one to one onto the device's own events, and collapsing them
//! into a tap makes every swipe read as a click.

use vstd::prelude::*;

verus! {

/// Longest a contact may stay down with no further samples before the provider
/// lifts it on its own. Generous enough for a deliberate long-press, short
/// enough that a browser that lost its pointerup does not leave a finger pinned
/// to the glass for the rest of the session.
pub const CONTACT_MAX: u64 = 10_000_000_000;

/// The state of the pointer, with coordinates in the caller's own unit.
#[derive(Debug, PartialEq)]
pub struct Pointer<C> {
    pub down: bool,
    /// Where the contact was last seen.
    pub last: (C, C),
    /// When the contact is lifted if nothing more is heard of it.
    pub deadline: Option<u64>,
}

/// What a pointer does.
#[derive(Debug, Clone, Copy, PartialEq, Eq, Structural)]
pub enum PointerAction {
    Down,
    Move,
    Up,
}

/// When a contact that was heard of now is lifted.
pub open spec fn deadline_after(now: u64) -> u64 {
    if now > u64::MAX - CONTACT_MAX {
        u64::MAX
    } else {
        (now + CONTACT_MAX) as u64
    }
}

fn deadline_from(now: u64) -> (deadline: u64)
    ensures
        deadline == deadline_after(now),
{
    if now > u64::MAX - CONTACT_MAX {
        u64::MAX
    } else {
        now + CONTACT_MAX
    }
}

impl<C: Copy> Pointer<C> {
    /// A pointer that touches nothing.
    pub fn new(centre: C) -> (pointer: Self)
        ensures
            pointer == (Pointer { down: false, last: (centre, centre), deadline: None }),
    {
        Pointer { down: false, last: (centre, centre), deadline: None }
    }

    /// The pointer after an event at a place.
    pub open spec fn after(self, action: PointerAction, x: C, y: C, now: u64) -> Pointer<C> {
        match action {
            PointerAction::Down => Pointer {
                down: true,
                last: (x, y),
                deadline: Some(deadline_after(now)),
            },
            PointerAction::Move => if self.down {
                Pointer { down: true, last: (x, y), deadline: Some(deadline_after(now)) }
            } else {
                self
            },
            PointerAction::Up => Pointer { down: false, deadline: None, ..self },
        }
    }

    /// Take an event, and say whether it goes to the device. A move with no
    /// contact down is dropped rather than promoted: passing it on would start a
    /// phantom drag.
    pub fn on_event(&mut self, action: PointerAction, x: C, y: C, now: u64) -> (forward: bool)
        ensures
            *final(self) == old(self).after(action, x, y, now),
            forward == old(self).forwards(action),
    {
        match action {
            PointerAction::Down => {
                *self = Pointer { down: true, last: (x, y), deadline: Some(deadline_from(now)) };
                true
            },
            PointerAction::Move => {
                if !self.down {
                    return false;
                }
                *self = Pointer { down: true, last: (x, y), deadline: Some(deadline_from(now)) };
                true
            },
            PointerAction::Up => {
                *self = Pointer { down: false, last: self.last, deadline: None };
                true
            },
        }
    }

    /// Where a contact is lifted.
    pub open spec fn lifted_at(self, x: C, y: C, is_place: bool) -> (C, C) {
        if is_place {
            (x, y)
        } else {
            self.last
        }
    }

    /// Whether an event goes to the device.
    pub open spec fn forwards(self, action: PointerAction) -> bool {
        action != PointerAction::Move || self.down
    }

    /// Lift the contact, and say where: at the place that came with the release
    /// where it is one, and else where the contact was last seen, for lifting it
    /// in the middle of the screen would turn every gesture into a drag there.
    pub fn lift(&mut self, x: C, y: C, is_place: bool) -> (at: (C, C))
        ensures
            at == old(self).lifted_at(x, y, is_place),
            *final(self) == (Pointer { down: false, deadline: None, ..*old(self) }),
    {
        let at = if is_place {
            (x, y)
        } else {
            self.last
        };
        *self = Pointer { down: false, last: self.last, deadline: None };
        at
    }

    /// Whether a contact has been held with no activity for too long.
    pub open spec fn is_stale(self, now: u64) -> bool {
        self.down && self.deadline is Some && now >= self.deadline->0
    }

    /// Lift a contact held with no activity, so that a lost pointerup cannot
    /// leave a finger pinned to the glass. Says where it is to be lifted.
    pub fn release_if_stale(&mut self, now: u64) -> (lifted: Option<(C, C)>)
        ensures
            if old(self).is_stale(now) {
                &&& lifted == Some(old(self).last)
                &&& *final(self) == Pointer { down: false, deadline: None, ..*old(self) }
            } else {
                &&& lifted is None
                &&& *final(self) == *old(self)
            },
    {
        let stale = self.down && match self.deadline {
            Some(at) => now >= at,
            None => false,
        };
        if !stale {
            return None;
        }
        let last = self.last;
        *self = Pointer { down: false, last, deadline: None };
        Some(last)
    }
}

/// A contact that is down has a deadline and one that is not has none, from the
/// start and after every event, so that every contact that is lost is lifted.
pub proof fn law_every_contact_is_lifted_in_the_end<C: Copy>(
    pointer: Pointer<C>,
    action: PointerAction,
    x: C,
    y: C,
    now: u64,
)
    requires
        pointer.down == pointer.deadline is Some,
    ensures
        ({
            let after = pointer.after(action, x, y, now);
            &&& after.down == after.deadline is Some
            &&& after.down ==> after.is_stale(after.deadline->0)
        }),
{
}

/// A contact stays down as long as it is heard of: it is not lifted before ten
/// seconds have passed since the last sample, and then it is, where it was last seen.
/// A move without a contact starts none, and a release ends any.
pub proof fn law_a_contact_lives_ten_seconds_from_its_last_sample<C: Copy>(
    pointer: Pointer<C>,
    x: C,
    y: C,
    now: u64,
    later: u64,
)
    requires
        now <= u64::MAX - 10_000_000_000,
    ensures
        ({
            let pressed = pointer.after(PointerAction::Down, x, y, now);
            let moved = pressed.after(PointerAction::Move, x, y, now);
            &&& pressed.down && pressed.last == (x, y)
            &&& pressed.is_stale(later) == (later >= now + 10_000_000_000)
            &&& moved.down && moved.last == (x, y)
            &&& moved.is_stale(later) == (later >= now + 10_000_000_000)
            &&& !pointer.down ==> pointer.after(PointerAction::Move, x, y, now) == pointer
            &&& !pointer.after(PointerAction::Up, x, y, now).down
            &&& !pointer.after(PointerAction::Up, x, y, now).is_stale(later)
        }),
{
}

/// A gesture reaches the device as it was made: every press and every release does, a
/// move does exactly while there is contact, and a release without a place lifts the
/// contact where its last sample was.
pub proof fn law_a_gesture_reaches_the_device<C: Copy>(
    pointer: Pointer<C>,
    x: C,
    y: C,
    elsewhere: C,
    now: u64,
)
    ensures
        ({
            let pressed = pointer.after(PointerAction::Down, x, y, now);
            &&& pointer.forwards(PointerAction::Down)
            &&& pointer.forwards(PointerAction::Up)
            &&& pressed.forwards(PointerAction::Move)
            &&& !pressed.after(PointerAction::Up, x, y, now).forwards(PointerAction::Move)
            &&& pressed.lifted_at(elsewhere, elsewhere, false) == (x, y)
            &&& pressed.after(PointerAction::Move, y, x, now).lifted_at(
                elsewhere,
                elsewhere,
                false,
            ) == (y, x)
            &&& pressed.lifted_at(elsewhere, x, true) == (elsewhere, x)
        }),
{
}

} // verus!
