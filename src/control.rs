//! Input controls driven by key presses and releases, counted per frame.
use vstd::prelude::*;

verus! {

/// Counter step that stops at the top instead of wrapping.
pub open spec fn saturating_next(c: u32) -> u32 {
    if c == u32::MAX {
        u32::MAX
    } else {
        (c + 1) as u32
    }
}

fn count_up(c: u32) -> (r: u32)
    ensures
        r == saturating_next(c),
{
    match c.checked_add(1) {
        Some(n) => n,
        None => u32::MAX,
    }
}

/// Direction of a reversible control.
#[derive(Debug, Clone, Copy, PartialEq, Eq, Structural)]
pub enum RevMode {
    Forward,
    Brake,
    Backward,
}

/// A control driven forwards or backwards by two exclusive inputs.
pub struct RevCtrl {
    triggering: bool,
    count: u32,
    mode: RevMode,
}

impl RevCtrl {
    pub closed spec fn triggering_spec(&self) -> bool {
        self.triggering
    }

    pub closed spec fn count_spec(&self) -> u32 {
        self.count
    }

    pub closed spec fn mode_spec(&self) -> RevMode {
        self.mode
    }

    /// A press of `mode`'s input engages it; a release disengages it only
    /// while it is the engaged direction.
    pub fn input(&mut self, mode: RevMode, pressed: bool)
        ensures
            final(self).count_spec() == old(self).count_spec(),
            (mode != RevMode::Brake && pressed) ==> final(self).triggering_spec() && final(self).mode_spec()
                == mode,
            (mode != RevMode::Brake && !pressed && old(self).mode_spec() == mode)
                ==> !final(self).triggering_spec() && final(self).mode_spec() == RevMode::Brake,
            (mode == RevMode::Brake || (!pressed && old(self).mode_spec() != mode)) ==> *final(self)
                == *old(self),
    {
        match mode {
            RevMode::Forward => {
                if pressed {
                    self.triggering = true;
                    self.mode = RevMode::Forward;
                } else if self.mode == RevMode::Forward {
                    self.triggering = false;
                    self.mode = RevMode::Brake;
                }
            },
            RevMode::Backward => {
                if pressed {
                    self.triggering = true;
                    self.mode = RevMode::Backward;
                } else if self.mode == RevMode::Backward {
                    self.triggering = false;
                    self.mode = RevMode::Brake;
                }
            },
            RevMode::Brake => {},
        }
    }

    /// Once per frame: counts frames while engaged, resets otherwise.
    pub fn update(&mut self)
        ensures
            final(self).triggering_spec() == old(self).triggering_spec(),
            final(self).mode_spec() == old(self).mode_spec(),
            final(self).count_spec() == if old(self).triggering_spec() {
                saturating_next(old(self).count_spec())
            } else {
                0
            },
    {
        if self.triggering {
            self.count = count_up(self.count);
        } else {
            self.count = 0;
        }
    }

    pub fn get_mode(&self) -> (r: RevMode)
        ensures
            r == self.mode_spec(),
    {
        self.mode
    }

    pub fn is_triggered(&self) -> (r: bool)
        ensures
            r == self.triggering_spec(),
    {
        self.triggering
    }

    pub fn get_trig_count(&self) -> (r: u32)
        ensures
            r == self.count_spec(),
    {
        self.count
    }
}

impl Default for RevCtrl {
    fn default() -> (r: Self)
        ensures
            !r.triggering_spec(),
            r.count_spec() == 0,
            r.mode_spec() == RevMode::Brake,
    {
        RevCtrl { triggering: false, count: 0, mode: RevMode::Brake }
    }
}

/// A control that stays on while its input is held, counting frames.
pub struct Trigger {
    triggering: bool,
    count: u32,
}

impl Trigger {
    pub closed spec fn triggering_spec(&self) -> bool {
        self.triggering
    }

    pub closed spec fn count_spec(&self) -> u32 {
        self.count
    }

    /// Follows the input: on while pressed.
    pub fn trigger(&mut self, pressed: bool)
        ensures
            final(self).triggering_spec() == pressed,
            final(self).count_spec() == old(self).count_spec(),
    {
        self.triggering = pressed;
    }

    /// Once per frame: counts frames while on, resets otherwise.
    pub fn update(&mut self)
        ensures
            final(self).triggering_spec() == old(self).triggering_spec(),
            final(self).count_spec() == if old(self).triggering_spec() {
                saturating_next(old(self).count_spec())
            } else {
                0
            },
    {
        if self.triggering {
            self.count = count_up(self.count);
        } else {
            self.count = 0;
        }
    }

    pub fn is_triggered(&self) -> (r: bool)
        ensures
            r == self.triggering_spec(),
    {
        self.triggering
    }

    pub fn get_trig_count(&self) -> (r: u32)
        ensures
            r == self.count_spec(),
    {
        self.count
    }
}

impl Default for Trigger {
    fn default() -> (r: Self)
        ensures
            !r.triggering_spec(),
            r.count_spec() == 0,
    {
        Trigger { triggering: false, count: 0 }
    }
}

/// A control that flips on one press and back on the next, counting the
/// frames spent in each state.
pub struct Latch {
    latch_on: bool,
    latch_inputting: bool,
    count: u32,
    on_count: u32,
    off_count: u32,
}

impl Latch {
    pub closed spec fn on_spec(&self) -> bool {
        self.latch_on
    }

    pub closed spec fn inputting_spec(&self) -> bool {
        self.latch_inputting
    }

    /// Frames the input has been held.
    pub closed spec fn count_spec(&self) -> u32 {
        self.count
    }

    pub closed spec fn on_count_spec(&self) -> u32 {
        self.on_count
    }

    pub closed spec fn off_count_spec(&self) -> u32 {
        self.off_count
    }

    /// A fresh press (the input was not held on the last frame) flips the
    /// latch, but only once the current state has lasted a frame.
    pub fn trigger(&mut self, pressed: bool)
        ensures
            final(self).inputting_spec() == pressed,
            final(self).count_spec() == old(self).count_spec(),
            final(self).on_count_spec() == old(self).on_count_spec(),
            final(self).off_count_spec() == old(self).off_count_spec(),
            final(self).on_spec() == if pressed && old(self).count_spec() == 0 {
                if !old(self).on_spec() && old(self).on_count_spec() == 0 {
                    true
                } else if old(self).on_spec() && old(self).off_count_spec() == 0 {
                    false
                } else {
                    old(self).on_spec()
                }
            } else {
                old(self).on_spec()
            },
    {
        if pressed {
            self.latch_inputting = true;
            if self.count == 0 && !self.latch_on && self.on_count == 0 {
                self.latch_on = true;
            } else if self.count == 0 && self.latch_on && self.off_count == 0 {
                self.latch_on = false;
            }
        } else {
            self.latch_inputting = false;
        }
    }

    /// Once per frame: counts how long the input has been held, and how
    /// long the latch has been on or off.
    pub fn update(&mut self)
        ensures
            final(self).on_spec() == old(self).on_spec(),
            final(self).inputting_spec() == old(self).inputting_spec(),
            final(self).count_spec() == if old(self).inputting_spec() {
                saturating_next(old(self).count_spec())
            } else {
                0
            },
            final(self).on_count_spec() == if old(self).on_spec() {
                saturating_next(old(self).on_count_spec())
            } else {
                0
            },
            final(self).off_count_spec() == if old(self).on_spec() {
                0
            } else {
                saturating_next(old(self).off_count_spec())
            },
    {
        if self.latch_inputting {
            self.count = count_up(self.count);
        } else {
            self.count = 0;
        }
        if self.latch_on {
            self.on_count = count_up(self.on_count);
            self.off_count = 0;
        } else {
            self.off_count = count_up(self.off_count);
            self.on_count = 0;
        }
    }

    pub fn is_latch_on(&self) -> (r: bool)
        ensures
            r == self.on_spec(),
    {
        self.latch_on
    }

    pub fn latch_on_count(&self) -> (r: u32)
        ensures
            r == self.on_count_spec(),
    {
        self.on_count
    }

    pub fn latch_off_count(&self) -> (r: u32)
        ensures
            r == self.off_count_spec(),
    {
        self.off_count
    }
}

impl Default for Latch {
    fn default() -> (r: Self)
        ensures
            !r.on_spec(),
            !r.inputting_spec(),
            r.count_spec() == 0,
            r.on_count_spec() == 0,
            r.off_count_spec() == 0,
    {
        Latch { latch_on: false, latch_inputting: false, count: 0, on_count: 0, off_count: 0 }
    }
}

/// Issues scene identifiers in sequence, wrapping to zero after the last.
pub struct SceneIdentMaster(u64);

/// Identifier of one scene instance.
#[derive(Debug, Clone, PartialEq, Eq, Structural, Hash)]
pub struct SceneIdent(pub u64);

impl SceneIdentMaster {
    /// The identifier the next call of `issue` returns.
    pub closed spec fn next_spec(&self) -> u64 {
        self.0
    }

    pub fn issue(&mut self) -> (r: SceneIdent)
        ensures
            r == SceneIdent(old(self).next_spec()),
            final(self).next_spec() == if old(self).next_spec() == u64::MAX {
                0
            } else {
                (old(self).next_spec() + 1) as u64
            },
    {
        let r = SceneIdent(self.0);
        self.0 = match self.0.checked_add(1) {
            Some(n) => n,
            None => 0,
        };
        r
    }
}

impl Default for SceneIdentMaster {
    fn default() -> (r: Self)
        ensures
            r.next_spec() == 0,
    {
        SceneIdentMaster(0)
    }
}

} // verus!
