//! Play-session options shared with the game client shell.

use vstd::prelude::*;

verus! {

/// Which parts of the chart the game plays by itself.
#[derive(Debug, Clone, Copy, PartialEq, Eq, Structural)]
pub enum AutoPlay {
    /// The player plays everything.
    Off,
    /// Buttons are played automatically.
    Buttons,
    /// Lasers are played automatically.
    Lasers,
    /// The whole chart is played automatically.
    All,
}

/// The timing windows a hit is judged against, in milliseconds around the
/// judged tick.
#[derive(Debug, Clone, Copy, PartialEq, Eq, Structural)]
pub struct HitWindow {
    /// Window set variant the rest of the windows were derived from.
    pub variant: i32,
    /// Half-width of the window awarding a perfect hit.
    pub perfect: i32,
    /// Half-width of the window awarding a good hit.
    pub good: i32,
    /// Half-width of the window a hold tick is credited in.
    pub hold: i32,
    /// Offset beyond which a hit counts as a miss.
    pub miss: i32,
}

impl Default for HitWindow {
    /// All windows zero: judgement disabled until the host configures them.
    fn default() -> (r: Self)
        ensures
            r == (HitWindow { variant: 0, perfect: 0, good: 0, hold: 0, miss: 0 }),
    {
        HitWindow { variant: 0, perfect: 0, good: 0, hold: 0, miss: 0 }
    }
}

} // verus!
