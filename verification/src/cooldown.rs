//! A two-state countdown timer. While `Active` it counts down `duration`
//! milliseconds, then flips to `OnCooldown` and counts down `cooldown`
//! milliseconds, then flips back, and so on. The command recognizer uses the
//! flip away from `Active` as its "pending input timed out" signal.

use vstd::prelude::*;

verus! {

#[derive(PartialEq, Eq, Structural, Clone, Copy, Debug)]
pub enum CooldownState {
    Active,
    OnCooldown,
}

/// How one `update(delta)` call relates the timer before and after: either
/// more time than `delta` remained and only the clock shrank, or the timer
/// flipped to the other state and started that state's full countdown.
pub open spec fn stepped(pre: Cooldown, post: Cooldown, delta: u64) -> bool {
    &&& post.duration == pre.duration
    &&& post.cooldown == pre.cooldown
    &&& if pre.current > delta {
        post.state == pre.state && post.current == pre.current - delta
    } else {
        &&& post.state != pre.state
        &&& post.current == (if pre.state == CooldownState::Active {
            pre.cooldown
        } else {
            pre.duration
        })
    }
}

pub struct Cooldown {
    pub state: CooldownState,
    pub cooldown: u64,
    pub duration: u64,
    pub current: u64,
}

impl Cooldown {
    /// Fresh timer: `Active`, with nothing left on the clock, so the first
    /// `update` flips it to `OnCooldown` unless `reset` is called first.
    pub fn new(duration: u64, cooldown: u64) -> (r: Cooldown)
        ensures
            r.state == CooldownState::Active,
            r.duration == duration,
            r.cooldown == cooldown,
            r.current == 0,
    {
        Cooldown { cooldown, duration, current: 0, state: CooldownState::Active }
    }

    /// Restart the timer in the given state with that state's full time.
    pub fn reset(&mut self, state: CooldownState)
        ensures
            final(self).state == state,
            final(self).current == (if state == CooldownState::Active {
                old(self).duration
            } else {
                old(self).cooldown
            }),
            final(self).duration == old(self).duration,
            final(self).cooldown == old(self).cooldown,
    {
        self.state = state;
        match self.state {
            CooldownState::Active => self.current = self.duration,
            CooldownState::OnCooldown => self.current = self.cooldown,
        }
    }

    /// Advance the clock by `delta`. If more time than `delta` remains, only
    /// the remaining time shrinks; otherwise the timer flips to the other
    /// state and starts that state's full countdown.
    pub fn update(&mut self, delta: u64)
        ensures
            stepped(*old(self), *final(self), delta),
    {
        match self.state {
            CooldownState::Active => {
                if self.current > delta {
                    self.current -= delta;
                } else {
                    self.current = self.cooldown;
                    self.state = CooldownState::OnCooldown;
                }
            },
            CooldownState::OnCooldown => {
                if self.current > delta {
                    self.current -= delta;
                } else {
                    self.current = self.duration;
                    self.state = CooldownState::Active;
                }
            },
        }
    }
}

} // verus!
