//! Per-tick player intent and the per-board tunables.
use vstd::prelude::*;
use crate::kinds::RotateCommand;

verus! {

/// What the player asks for in one tick, with key repeats already resolved.
#[derive(Debug, Clone, Copy, PartialEq, Eq, Structural)]
pub struct Controller {
    /// Signed number of columns to shift; negative is to the left.
    pub shift: i32,
    pub hard_drop: bool,
    pub soft_drop: bool,
    pub rotation: Option<RotateCommand>,
    pub hold: bool,
}

impl Controller {
    /// A controller that asks for nothing.
    pub fn idle() -> (r: Controller)
        ensures
            r == (Controller { shift: 0, hard_drop: false, soft_drop: false, rotation: None, hold: false }),
    {
        Controller { shift: 0, hard_drop: false, soft_drop: false, rotation: None, hold: false }
    }

    /// Whether the player asks for anything at all.
    pub fn any_activation(&self) -> (r: bool)
        ensures
            r == (self.shift != 0 || self.hard_drop || self.soft_drop || self.rotation is Some || self.hold),
    {
        self.shift != 0 || self.hard_drop || self.soft_drop || self.rotation.is_some() || self.hold
    }
}

/// Thousandths of a cell in one cell.
pub const CELL_UNITS: u64 = 1000;

/// Per-board tunables, in integer units.
#[derive(Debug, Clone, Copy, PartialEq, Eq, Structural)]
pub struct Settings {
    /// Factor applied to gravity while soft drop is held.
    pub soft_drop_power: u32,
    /// Distance fallen per tick, in thousandths of a cell.
    pub gravity_power: u32,
    /// Time a grounded piece waits before it locks, in milliseconds.
    pub lock_delay: u32,
    /// Time before a held shift key repeats, in milliseconds; 0 means `repeat_delay`.
    pub initial_delay: u32,
    /// Time between repeats of a held shift key, in milliseconds.
    pub repeat_delay: u32,
}

impl Default for Settings {
    fn default() -> (r: Self)
        ensures
            r == (Settings { soft_drop_power: 10, gravity_power: 20, lock_delay: 500, initial_delay: 1000, repeat_delay: 100 }),
    {
        Settings { soft_drop_power: 10, gravity_power: 20, lock_delay: 500, initial_delay: 1000, repeat_delay: 100 }
    }
}

/// The distance a piece falls in one tick, in thousandths of a cell.
pub open spec fn fall_rate(s: Settings, soft_drop: bool) -> u64 {
    if soft_drop {
        (s.soft_drop_power as u64 * s.gravity_power as u64) as u64
    } else {
        s.gravity_power as u64
    }
}

impl Settings {
    /// The distance a piece falls in one tick, in thousandths of a cell.
    pub fn fall_per_tick(&self, soft_drop: bool) -> (r: u64)
        ensures
            r == fall_rate(*self, soft_drop),
    {
        if soft_drop {
            assert(self.soft_drop_power as u64 * self.gravity_power as u64 <= 0xffff_ffff_u64 * 0xffff_ffff_u64) by (nonlinear_arith);
            self.soft_drop_power as u64 * self.gravity_power as u64
        } else {
            self.gravity_power as u64
        }
    }

    /// The delay before the first repeat of a held shift key.
    pub fn first_repeat_delay(&self) -> (r: u32)
        ensures
            r == if self.initial_delay == 0 { self.repeat_delay } else { self.initial_delay },
    {
        if self.initial_delay == 0 {
            self.repeat_delay
        } else {
            self.initial_delay
        }
    }
}

/// Repeat state of one held shift key.
#[derive(Debug, Clone, Copy, PartialEq, Eq, Structural)]
pub struct Repeatable {
    /// Clock time, in milliseconds, at which the key went down; tells which of two keys
    /// came first.
    pub activated_at: u64,
    /// Milliseconds left until the next repeat, while the key is held.
    pub repeat_at: Option<u32>,
}

/// `a` minus `b`, or `b` minus `a`, whichever is not negative.
pub open spec fn abs_diff(a: u32, b: u32) -> u32 {
    if a >= b { (a - b) as u32 } else { (b - a) as u32 }
}

impl Repeatable {
    /// A key that is not held.
    pub fn new() -> (r: Repeatable)
        ensures
            r == (Repeatable { activated_at: 0, repeat_at: None }),
    {
        Repeatable { activated_at: 0, repeat_at: None }
    }

    /// Advances the key by a tick of `delta` milliseconds ending at clock time `now`, with
    /// the key held iff `activation`; returns how many shifts the tick registers: one when
    /// the key goes down, then one for each repeat delay that has run out.
    pub fn update(&mut self, delta: u32, now: u64, settings: &Settings, activation: bool) -> (r: u32)
        requires
            settings.repeat_delay > 0,
        ensures
            !activation ==> r == 0 && final(self).repeat_at is None && final(self).activated_at == old(self).activated_at,
            activation && old(self).repeat_at is None ==> r == 1
                && final(self).repeat_at == Some(if settings.initial_delay == 0 { settings.repeat_delay } else { settings.initial_delay })
                && final(self).activated_at == now,
            activation && old(self).repeat_at is Some ==> ({
                let t = old(self).repeat_at->0;
                &&& final(self).repeat_at == Some((abs_diff(delta, t) % settings.repeat_delay) as u32)
                &&& final(self).activated_at == old(self).activated_at
                &&& r == if t < delta { (((delta - t) / (settings.repeat_delay as int)) as u32).saturating_add(1) } else { 0 }
            }),
    {
        if activation {
            match self.repeat_at {
                Some(time_to_repeat) => {
                    let diff = if delta >= time_to_repeat { delta - time_to_repeat } else { time_to_repeat - delta };
                    self.repeat_at = Some(diff % settings.repeat_delay);
                    if time_to_repeat < delta {
                        let q = (delta - time_to_repeat) / settings.repeat_delay;
                        return q.saturating_add(1);
                    }
                    0
                },
                None => {
                    self.repeat_at = Some(settings.first_repeat_delay());
                    self.activated_at = now;
                    1
                },
            }
        } else {
            self.repeat_at = None;
            0
        }
    }
}

/// The signed shift of a tick from the shifts registered by the left and right keys: when
/// both are held, the key pressed later wins (left on a tie); otherwise their sum.
pub fn combine_shift(left: &Repeatable, right: &Repeatable, shift_left: u32, shift_right: u32) -> (r: i32)
    requires
        shift_left <= i32::MAX,
        shift_right <= i32::MAX,
    ensures
        r == if left.repeat_at is Some && right.repeat_at is Some {
            if left.activated_at < right.activated_at { shift_right as int } else { -(shift_left as int) }
        } else {
            shift_right as int - shift_left as int
        },
{
    let l = -(shift_left as i32);
    let rr = shift_right as i32;
    if left.repeat_at.is_some() && right.repeat_at.is_some() {
        if left.activated_at < right.activated_at {
            rr
        } else {
            l
        }
    } else {
        l + rr
    }
}

} // verus!
