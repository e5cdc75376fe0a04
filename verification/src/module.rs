//! The script module that easing scripts call back into, and its debug switch.
use vstd::prelude::*;

verus! {

/// The script module. Its debug flag is shown to scripts, which then report more.
#[derive(Debug, Clone, Copy, PartialEq, Eq, Structural)]
pub struct KeyframesMod2 {
    pub debug: bool,
}

impl KeyframesMod2 {
    /// The module as loaded: debugging off.
    pub fn new() -> (r: Self)
        ensures
            !r.debug,
    {
        KeyframesMod2 { debug: false }
    }

    /// Whether scripts should run in debug mode.
    pub fn debug_mode(&self) -> (r: bool)
        ensures
            r == self.debug,
    {
        self.debug
    }

    /// The selected object's name has been clicked `clicks` times in all. From the
    /// fifth click on, debugging is on after an even count and off after an odd one;
    /// before that the setting stays.
    pub fn register_click(&mut self, clicks: usize)
        ensures
            final(self).debug == if clicks >= 5 {
                clicks % 2 == 0
            } else {
                old(self).debug
            },
    {
        if clicks >= 5 {
            self.debug = clicks % 2 == 0;
        }
    }
}

} // verus!
