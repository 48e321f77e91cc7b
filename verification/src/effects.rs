//! Audio effects and the resolution of their parameters.
//!
//! An [`AudioEffect`] is a snapshot of one effect kind's named parameters.
//! Each parameter holds the raw text the chart supplies for it; the compiler
//! only routes that text (layering scheduled changes and per-event overrides
//! onto a root definition), it never interprets it -- interpretation belongs
//! to the audio DSP engines that consume the snapshots.
//!
//! Overriding is done by name: `derive(key, param)` returns a copy of the
//! snapshot with the parameter named `key` set to `param`, and tolerates
//! unrecognized keys as no-ops, so charts with unknown parameter sets still
//! compile. [`resolve`] folds every scheduled change at or before a tick onto
//! a root definition, in order -- later changes to the same key win, and
//! changes after the tick are never applied.

use vstd::prelude::*;

use crate::chart::{lane_sorted, Chart, Interval};

verus! {

/// A left or right side: FX and laser lanes come in pairs.
#[derive(Debug, Clone, Copy, PartialEq, Eq, Structural)]
pub enum Side {
    Left,
    Right,
}

/// The track an effect interval is assigned to.
#[derive(Debug, Clone, Copy, PartialEq, Eq, Structural)]
pub enum Track {
    FX(Side),
    Laser(Side),
}

/// The side of lane index `i` (`0` is left, `1` is right).
pub open spec fn side_of(i: int) -> Side {
    if i == 0 {
        Side::Left
    } else {
        Side::Right
    }
}

/// One FX "long event": at tick `y`, the FX note starting exactly there is
/// given the surrounding definition's effect, optionally with per-event
/// parameter overrides layered on top.
#[derive(Debug, PartialEq, Eq)]
pub struct FxLongEvent {
    /// Start tick of the FX note this event addresses.
    pub y: u32,
    /// Per-event parameter overrides, applied after scheduled changes.
    pub params: Option<Vec<(String, String)>>,
}

/// The chart's FX-side effect schedule: named root definitions, scheduled
/// parameter changes per name, and long events per name and lane side. Each
/// association list keeps the chart's own definition order.
#[derive(Debug, PartialEq, Eq)]
pub struct FxEffectBank {
    /// Named root effect definitions.
    pub def: Vec<(String, AudioEffect)>,
    /// Scheduled parameter changes per definition name, ordered by tick.
    pub param_change: Vec<(String, Vec<ParamChange>)>,
    /// Long events per definition name, one list per FX lane side.
    pub long_event: Vec<(String, [Vec<FxLongEvent>; 2])>,
}

/// The chart's laser-side effect schedule: named root definitions, scheduled
/// parameter changes per name, and pulse events (discrete activation
/// markers) per name.
#[derive(Debug, PartialEq, Eq)]
pub struct LaserEffectBank {
    /// Named root effect definitions.
    pub def: Vec<(String, AudioEffect)>,
    /// Scheduled parameter changes per definition name, ordered by tick.
    pub param_change: Vec<(String, Vec<ParamChange>)>,
    /// Pulse events per definition name: each tick activates the definition
    /// for laser sections starting at or after it.
    pub pulse_event: Vec<(String, Vec<u32>)>,
}

/// The chart's audio-effect schedules for both FX and laser tracks.
#[derive(Debug, PartialEq, Eq)]
pub struct AudioEffectInfo {
    pub fx: FxEffectBank,
    pub laser: LaserEffectBank,
}

/// The chart's audio description, as far as the compiler reads it.
#[derive(Debug, PartialEq, Eq)]
pub struct AudioInfo {
    /// The effect schedules; a chart without effects has none.
    pub audio_effect: Option<AudioEffectInfo>,
}

/// Failure modes of effect handling reported to chart tooling.
#[derive(Debug, Clone, Copy, PartialEq, Eq, Structural)]
pub enum EffectError {
    /// Effect changes were applied across two different effect kinds.
    EffectTypeMismatchError,
}

/// String equality by content.
fn str_eq(a: &str, b: &str) -> (r: bool)
    ensures
        r == (a@ == b@),
{
    let a_owned: String = a.to_owned();
    let b_owned: String = b.to_owned();
    a_owned == b_owned
}

/// A resolved audio effect snapshot: one variant per effect kind, each
/// holding that kind's named parameters. `AudioSwap` swaps in a named
/// replacement audio clip instead of processing the track.
#[derive(Debug, PartialEq, Eq)]
pub enum AudioEffect {
    ReTrigger(ReTrigger),
    Gate(Gate),
    Flanger(Flanger),
    PitchShift(PitchShift),
    BitCrusher(BitCrusher),
    Phaser(Phaser),
    Wobble(Wobble),
    TapeStop(TapeStop),
    Echo(Echo),
    SideChain(SideChain),
    AudioSwap(String),
    HighPassFilter(HighPassFilter),
    LowPassFilter(LowPassFilter),
    PeakingFilter(PeakingFilter),
}

/// A copy of `e` with the parameter named `key` set to `param`. The kind
/// of the effect never changes; an unrecognized key changes nothing. An
/// `AudioSwap` has a single unnamed parameter, which every key addresses.
pub open spec fn audio_effect_derive(e: AudioEffect, key: Seq<char>, param: String) -> AudioEffect {
    match e {
        AudioEffect::ReTrigger(x) => AudioEffect::ReTrigger(re_trigger_derive(x, key, param)),
        AudioEffect::Gate(x) => AudioEffect::Gate(gate_derive(x, key, param)),
        AudioEffect::Flanger(x) => AudioEffect::Flanger(flanger_derive(x, key, param)),
        AudioEffect::PitchShift(x) => AudioEffect::PitchShift(pitch_shift_derive(x, key, param)),
        AudioEffect::BitCrusher(x) => AudioEffect::BitCrusher(bit_crusher_derive(x, key, param)),
        AudioEffect::Phaser(x) => AudioEffect::Phaser(phaser_derive(x, key, param)),
        AudioEffect::Wobble(x) => AudioEffect::Wobble(wobble_derive(x, key, param)),
        AudioEffect::TapeStop(x) => AudioEffect::TapeStop(tape_stop_derive(x, key, param)),
        AudioEffect::Echo(x) => AudioEffect::Echo(echo_derive(x, key, param)),
        AudioEffect::SideChain(x) => AudioEffect::SideChain(side_chain_derive(x, key, param)),
        AudioEffect::AudioSwap(_) => AudioEffect::AudioSwap(param),
        AudioEffect::HighPassFilter(x) => AudioEffect::HighPassFilter(high_pass_filter_derive(x, key, param)),
        AudioEffect::LowPassFilter(x) => AudioEffect::LowPassFilter(low_pass_filter_derive(x, key, param)),
        AudioEffect::PeakingFilter(x) => AudioEffect::PeakingFilter(peaking_filter_derive(x, key, param)),
    }
}

impl Clone for AudioEffect {
    fn clone(&self) -> (r: Self)
        ensures
            r == *self,
    {
        match self {
            AudioEffect::ReTrigger(x) => AudioEffect::ReTrigger(x.clone()),
            AudioEffect::Gate(x) => AudioEffect::Gate(x.clone()),
            AudioEffect::Flanger(x) => AudioEffect::Flanger(x.clone()),
            AudioEffect::PitchShift(x) => AudioEffect::PitchShift(x.clone()),
            AudioEffect::BitCrusher(x) => AudioEffect::BitCrusher(x.clone()),
            AudioEffect::Phaser(x) => AudioEffect::Phaser(x.clone()),
            AudioEffect::Wobble(x) => AudioEffect::Wobble(x.clone()),
            AudioEffect::TapeStop(x) => AudioEffect::TapeStop(x.clone()),
            AudioEffect::Echo(x) => AudioEffect::Echo(x.clone()),
            AudioEffect::SideChain(x) => AudioEffect::SideChain(x.clone()),
            AudioEffect::AudioSwap(s) => AudioEffect::AudioSwap(s.clone()),
            AudioEffect::HighPassFilter(x) => AudioEffect::HighPassFilter(x.clone()),
            AudioEffect::LowPassFilter(x) => AudioEffect::LowPassFilter(x.clone()),
            AudioEffect::PeakingFilter(x) => AudioEffect::PeakingFilter(x.clone()),
        }
    }
}

impl AudioEffect {
    /// A copy with the parameter named `key` overridden to `param`;
    /// deriving on an unrecognized key is a no-op. This is the sole way
    /// parameters are overridden.
    pub fn derive(&self, key: &str, param: &String) -> (r: AudioEffect)
        ensures
            r == audio_effect_derive(*self, key@, *param),
    {
        match self {
            AudioEffect::ReTrigger(x) => AudioEffect::ReTrigger(x.derive(key, param)),
            AudioEffect::Gate(x) => AudioEffect::Gate(x.derive(key, param)),
            AudioEffect::Flanger(x) => AudioEffect::Flanger(x.derive(key, param)),
            AudioEffect::PitchShift(x) => AudioEffect::PitchShift(x.derive(key, param)),
            AudioEffect::BitCrusher(x) => AudioEffect::BitCrusher(x.derive(key, param)),
            AudioEffect::Phaser(x) => AudioEffect::Phaser(x.derive(key, param)),
            AudioEffect::Wobble(x) => AudioEffect::Wobble(x.derive(key, param)),
            AudioEffect::TapeStop(x) => AudioEffect::TapeStop(x.derive(key, param)),
            AudioEffect::Echo(x) => AudioEffect::Echo(x.derive(key, param)),
            AudioEffect::SideChain(x) => AudioEffect::SideChain(x.derive(key, param)),
            AudioEffect::AudioSwap(_) => AudioEffect::AudioSwap(param.clone()),
            AudioEffect::HighPassFilter(x) => AudioEffect::HighPassFilter(x.derive(key, param)),
            AudioEffect::LowPassFilter(x) => AudioEffect::LowPassFilter(x.derive(key, param)),
            AudioEffect::PeakingFilter(x) => AudioEffect::PeakingFilter(x.derive(key, param)),
        }
    }
}

/// A re-trigger effect: repeats a captured slice of audio.
#[derive(Debug, PartialEq, Eq)]
pub struct ReTrigger {
    pub update_period: String,
    pub wave_length: String,
    pub rate: String,
    pub update_trigger: String,
    pub mix: String,
}

impl Clone for ReTrigger {
    fn clone(&self) -> (r: Self)
        ensures
            r == *self,
    {
        ReTrigger {
            update_period: self.update_period.clone(),
            wave_length: self.wave_length.clone(),
            rate: self.rate.clone(),
            update_trigger: self.update_trigger.clone(),
            mix: self.mix.clone(),
        }
    }
}

/// A copy of `e` with the parameter named `key` set to `param`; an
/// unrecognized key changes nothing.
pub open spec fn re_trigger_derive(e: ReTrigger, key: Seq<char>, param: String) -> ReTrigger {
    if key == "update_period"@ {
        ReTrigger { update_period: param, ..e }
    } else if key == "wave_length"@ {
        ReTrigger { wave_length: param, ..e }
    } else if key == "rate"@ {
        ReTrigger { rate: param, ..e }
    } else if key == "update_trigger"@ {
        ReTrigger { update_trigger: param, ..e }
    } else if key == "mix"@ {
        ReTrigger { mix: param, ..e }
    } else {
        e
    }
}

impl ReTrigger {
    /// A copy with the parameter named `key` overridden to `param`;
    /// deriving on an unrecognized key is a no-op.
    pub fn derive(&self, key: &str, param: &String) -> (r: ReTrigger)
        ensures
            r == re_trigger_derive(*self, key@, *param),
    {
        let mut r = self.clone();
        if str_eq(key, "update_period") {
            r.update_period = param.clone();
        } else if str_eq(key, "wave_length") {
            r.wave_length = param.clone();
        } else if str_eq(key, "rate") {
            r.rate = param.clone();
        } else if str_eq(key, "update_trigger") {
            r.update_trigger = param.clone();
        } else if str_eq(key, "mix") {
            r.mix = param.clone();
        }
        r
    }
}

/// A gate effect: rhythmically mutes the audio.
#[derive(Debug, PartialEq, Eq)]
pub struct Gate {
    pub wave_length: String,
    pub rate: String,
    pub mix: String,
}

impl Clone for Gate {
    fn clone(&self) -> (r: Self)
        ensures
            r == *self,
    {
        Gate {
            wave_length: self.wave_length.clone(),
            rate: self.rate.clone(),
            mix: self.mix.clone(),
        }
    }
}

/// A copy of `e` with the parameter named `key` set to `param`; an
/// unrecognized key changes nothing.
pub open spec fn gate_derive(e: Gate, key: Seq<char>, param: String) -> Gate {
    if key == "wave_length"@ {
        Gate { wave_length: param, ..e }
    } else if key == "rate"@ {
        Gate { rate: param, ..e }
    } else if key == "mix"@ {
        Gate { mix: param, ..e }
    } else {
        e
    }
}

impl Gate {
    /// A copy with the parameter named `key` overridden to `param`;
    /// deriving on an unrecognized key is a no-op.
    pub fn derive(&self, key: &str, param: &String) -> (r: Gate)
        ensures
            r == gate_derive(*self, key@, *param),
    {
        let mut r = self.clone();
        if str_eq(key, "wave_length") {
            r.wave_length = param.clone();
        } else if str_eq(key, "rate") {
            r.rate = param.clone();
        } else if str_eq(key, "mix") {
            r.mix = param.clone();
        }
        r
    }
}

/// A flanger effect: a short modulated delay mixed back in.
#[derive(Debug, PartialEq, Eq)]
pub struct Flanger {
    pub period: String,
    pub delay: String,
    pub depth: String,
    pub feedback: String,
    pub stereo_width: String,
    pub vol: String,
    pub mix: String,
}

impl Clone for Flanger {
    fn clone(&self) -> (r: Self)
        ensures
            r == *self,
    {
        Flanger {
            period: self.period.clone(),
            delay: self.delay.clone(),
            depth: self.depth.clone(),
            feedback: self.feedback.clone(),
            stereo_width: self.stereo_width.clone(),
            vol: self.vol.clone(),
            mix: self.mix.clone(),
        }
    }
}

/// A copy of `e` with the parameter named `key` set to `param`; an
/// unrecognized key changes nothing.
pub open spec fn flanger_derive(e: Flanger, key: Seq<char>, param: String) -> Flanger {
    if key == "period"@ {
        Flanger { period: param, ..e }
    } else if key == "delay"@ {
        Flanger { delay: param, ..e }
    } else if key == "depth"@ {
        Flanger { depth: param, ..e }
    } else if key == "feedback"@ {
        Flanger { feedback: param, ..e }
    } else if key == "stereo_width"@ {
        Flanger { stereo_width: param, ..e }
    } else if key == "vol"@ {
        Flanger { vol: param, ..e }
    } else if key == "mix"@ {
        Flanger { mix: param, ..e }
    } else {
        e
    }
}

impl Flanger {
    /// A copy with the parameter named `key` overridden to `param`;
    /// deriving on an unrecognized key is a no-op.
    pub fn derive(&self, key: &str, param: &String) -> (r: Flanger)
        ensures
            r == flanger_derive(*self, key@, *param),
    {
        let mut r = self.clone();
        if str_eq(key, "period") {
            r.period = param.clone();
        } else if str_eq(key, "delay") {
            r.delay = param.clone();
        } else if str_eq(key, "depth") {
            r.depth = param.clone();
        } else if str_eq(key, "feedback") {
            r.feedback = param.clone();
        } else if str_eq(key, "stereo_width") {
            r.stereo_width = param.clone();
        } else if str_eq(key, "vol") {
            r.vol = param.clone();
        } else if str_eq(key, "mix") {
            r.mix = param.clone();
        }
        r
    }
}

/// A pitch-shift effect: transposes the audio.
#[derive(Debug, PartialEq, Eq)]
pub struct PitchShift {
    pub pitch: String,
    pub pitch_quantize: String,
    pub chunk_size: String,
    pub overlap: String,
    pub mix: String,
}

impl Clone for PitchShift {
    fn clone(&self) -> (r: Self)
        ensures
            r == *self,
    {
        PitchShift {
            pitch: self.pitch.clone(),
            pitch_quantize: self.pitch_quantize.clone(),
            chunk_size: self.chunk_size.clone(),
            overlap: self.overlap.clone(),
            mix: self.mix.clone(),
        }
    }
}

/// A copy of `e` with the parameter named `key` set to `param`; an
/// unrecognized key changes nothing.
pub open spec fn pitch_shift_derive(e: PitchShift, key: Seq<char>, param: String) -> PitchShift {
    if key == "pitch"@ {
        PitchShift { pitch: param, ..e }
    } else if key == "pitch_quantize"@ {
        PitchShift { pitch_quantize: param, ..e }
    } else if key == "chunk_size"@ {
        PitchShift { chunk_size: param, ..e }
    } else if key == "overlap"@ {
        PitchShift { overlap: param, ..e }
    } else if key == "mix"@ {
        PitchShift { mix: param, ..e }
    } else {
        e
    }
}

impl PitchShift {
    /// A copy with the parameter named `key` overridden to `param`;
    /// deriving on an unrecognized key is a no-op.
    pub fn derive(&self, key: &str, param: &String) -> (r: PitchShift)
        ensures
            r == pitch_shift_derive(*self, key@, *param),
    {
        let mut r = self.clone();
        if str_eq(key, "pitch") {
            r.pitch = param.clone();
        } else if str_eq(key, "pitch_quantize") {
            r.pitch_quantize = param.clone();
        } else if str_eq(key, "chunk_size") {
            r.chunk_size = param.clone();
        } else if str_eq(key, "overlap") {
            r.overlap = param.clone();
        } else if str_eq(key, "mix") {
            r.mix = param.clone();
        }
        r
    }
}

/// A bit-crusher effect: reduces the sample resolution.
#[derive(Debug, PartialEq, Eq)]
pub struct BitCrusher {
    pub reduction: String,
    pub mix: String,
}

impl Clone for BitCrusher {
    fn clone(&self) -> (r: Self)
        ensures
            r == *self,
    {
        BitCrusher {
            reduction: self.reduction.clone(),
            mix: self.mix.clone(),
        }
    }
}

/// A copy of `e` with the parameter named `key` set to `param`; an
/// unrecognized key changes nothing.
pub open spec fn bit_crusher_derive(e: BitCrusher, key: Seq<char>, param: String) -> BitCrusher {
    if key == "reduction"@ {
        BitCrusher { reduction: param, ..e }
    } else if key == "mix"@ {
        BitCrusher { mix: param, ..e }
    } else {
        e
    }
}

impl BitCrusher {
    /// A copy with the parameter named `key` overridden to `param`;
    /// deriving on an unrecognized key is a no-op.
    pub fn derive(&self, key: &str, param: &String) -> (r: BitCrusher)
        ensures
            r == bit_crusher_derive(*self, key@, *param),
    {
        let mut r = self.clone();
        if str_eq(key, "reduction") {
            r.reduction = param.clone();
        } else if str_eq(key, "mix") {
            r.mix = param.clone();
        }
        r
    }
}

/// A phaser effect: sweeping all-pass filter stages.
#[derive(Debug, PartialEq, Eq)]
pub struct Phaser {
    pub period: String,
    pub stage: String,
    pub lo_freq: String,
    pub hi_freq: String,
    pub q: String,
    pub feedback: String,
    pub stereo_width: String,
    pub mix: String,
}

impl Clone for Phaser {
    fn clone(&self) -> (r: Self)
        ensures
            r == *self,
    {
        Phaser {
            period: self.period.clone(),
            stage: self.stage.clone(),
            lo_freq: self.lo_freq.clone(),
            hi_freq: self.hi_freq.clone(),
            q: self.q.clone(),
            feedback: self.feedback.clone(),
            stereo_width: self.stereo_width.clone(),
            mix: self.mix.clone(),
        }
    }
}

/// A copy of `e` with the parameter named `key` set to `param`; an
/// unrecognized key changes nothing.
pub open spec fn phaser_derive(e: Phaser, key: Seq<char>, param: String) -> Phaser {
    if key == "period"@ {
        Phaser { period: param, ..e }
    } else if key == "stage"@ {
        Phaser { stage: param, ..e }
    } else if key == "lo_freq"@ {
        Phaser { lo_freq: param, ..e }
    } else if key == "hi_freq"@ {
        Phaser { hi_freq: param, ..e }
    } else if key == "q"@ {
        Phaser { q: param, ..e }
    } else if key == "feedback"@ {
        Phaser { feedback: param, ..e }
    } else if key == "stereo_width"@ {
        Phaser { stereo_width: param, ..e }
    } else if key == "mix"@ {
        Phaser { mix: param, ..e }
    } else {
        e
    }
}

impl Phaser {
    /// A copy with the parameter named `key` overridden to `param`;
    /// deriving on an unrecognized key is a no-op.
    pub fn derive(&self, key: &str, param: &String) -> (r: Phaser)
        ensures
            r == phaser_derive(*self, key@, *param),
    {
        let mut r = self.clone();
        if str_eq(key, "period") {
            r.period = param.clone();
        } else if str_eq(key, "stage") {
            r.stage = param.clone();
        } else if str_eq(key, "lo_freq") {
            r.lo_freq = param.clone();
        } else if str_eq(key, "hi_freq") {
            r.hi_freq = param.clone();
        } else if str_eq(key, "q") {
            r.q = param.clone();
        } else if str_eq(key, "feedback") {
            r.feedback = param.clone();
        } else if str_eq(key, "stereo_width") {
            r.stereo_width = param.clone();
        } else if str_eq(key, "mix") {
            r.mix = param.clone();
        }
        r
    }
}

/// A wobble effect: a tempo-synced sweeping low-pass filter.
#[derive(Debug, PartialEq, Eq)]
pub struct Wobble {
    pub wave_length: String,
    pub lo_freq: String,
    pub hi_freq: String,
    pub q: String,
    pub mix: String,
}

impl Clone for Wobble {
    fn clone(&self) -> (r: Self)
        ensures
            r == *self,
    {
        Wobble {
            wave_length: self.wave_length.clone(),
            lo_freq: self.lo_freq.clone(),
            hi_freq: self.hi_freq.clone(),
            q: self.q.clone(),
            mix: self.mix.clone(),
        }
    }
}

/// A copy of `e` with the parameter named `key` set to `param`; an
/// unrecognized key changes nothing.
pub open spec fn wobble_derive(e: Wobble, key: Seq<char>, param: String) -> Wobble {
    if key == "wave_length"@ {
        Wobble { wave_length: param, ..e }
    } else if key == "lo_freq"@ {
        Wobble { lo_freq: param, ..e }
    } else if key == "hi_freq"@ {
        Wobble { hi_freq: param, ..e }
    } else if key == "q"@ {
        Wobble { q: param, ..e }
    } else if key == "mix"@ {
        Wobble { mix: param, ..e }
    } else {
        e
    }
}

impl Wobble {
    /// A copy with the parameter named `key` overridden to `param`;
    /// deriving on an unrecognized key is a no-op.
    pub fn derive(&self, key: &str, param: &String) -> (r: Wobble)
        ensures
            r == wobble_derive(*self, key@, *param),
    {
        let mut r = self.clone();
        if str_eq(key, "wave_length") {
            r.wave_length = param.clone();
        } else if str_eq(key, "lo_freq") {
            r.lo_freq = param.clone();
        } else if str_eq(key, "hi_freq") {
            r.hi_freq = param.clone();
        } else if str_eq(key, "q") {
            r.q = param.clone();
        } else if str_eq(key, "mix") {
            r.mix = param.clone();
        }
        r
    }
}

/// A tape-stop effect: slows the audio down to a halt.
#[derive(Debug, PartialEq, Eq)]
pub struct TapeStop {
    pub speed: String,
    pub trigger: String,
    pub mix: String,
}

impl Clone for TapeStop {
    fn clone(&self) -> (r: Self)
        ensures
            r == *self,
    {
        TapeStop {
            speed: self.speed.clone(),
            trigger: self.trigger.clone(),
            mix: self.mix.clone(),
        }
    }
}

/// A copy of `e` with the parameter named `key` set to `param`; an
/// unrecognized key changes nothing.
pub open spec fn tape_stop_derive(e: TapeStop, key: Seq<char>, param: String) -> TapeStop {
    if key == "speed"@ {
        TapeStop { speed: param, ..e }
    } else if key == "trigger"@ {
        TapeStop { trigger: param, ..e }
    } else if key == "mix"@ {
        TapeStop { mix: param, ..e }
    } else {
        e
    }
}

impl TapeStop {
    /// A copy with the parameter named `key` overridden to `param`;
    /// deriving on an unrecognized key is a no-op.
    pub fn derive(&self, key: &str, param: &String) -> (r: TapeStop)
        ensures
            r == tape_stop_derive(*self, key@, *param),
    {
        let mut r = self.clone();
        if str_eq(key, "speed") {
            r.speed = param.clone();
        } else if str_eq(key, "trigger") {
            r.trigger = param.clone();
        } else if str_eq(key, "mix") {
            r.mix = param.clone();
        }
        r
    }
}

/// An echo effect: a re-trigger with decaying feedback.
#[derive(Debug, PartialEq, Eq)]
pub struct Echo {
    pub update_period: String,
    pub wave_length: String,
    pub update_trigger: String,
    pub feedback_level: String,
    pub mix: String,
}

impl Clone for Echo {
    fn clone(&self) -> (r: Self)
        ensures
            r == *self,
    {
        Echo {
            update_period: self.update_period.clone(),
            wave_length: self.wave_length.clone(),
            update_trigger: self.update_trigger.clone(),
            feedback_level: self.feedback_level.clone(),
            mix: self.mix.clone(),
        }
    }
}

/// A copy of `e` with the parameter named `key` set to `param`; an
/// unrecognized key changes nothing.
pub open spec fn echo_derive(e: Echo, key: Seq<char>, param: String) -> Echo {
    if key == "update_period"@ {
        Echo { update_period: param, ..e }
    } else if key == "wave_length"@ {
        Echo { wave_length: param, ..e }
    } else if key == "update_trigger"@ {
        Echo { update_trigger: param, ..e }
    } else if key == "feedback_level"@ {
        Echo { feedback_level: param, ..e }
    } else if key == "mix"@ {
        Echo { mix: param, ..e }
    } else {
        e
    }
}

impl Echo {
    /// A copy with the parameter named `key` overridden to `param`;
    /// deriving on an unrecognized key is a no-op.
    pub fn derive(&self, key: &str, param: &String) -> (r: Echo)
        ensures
            r == echo_derive(*self, key@, *param),
    {
        let mut r = self.clone();
        if str_eq(key, "update_period") {
            r.update_period = param.clone();
        } else if str_eq(key, "wave_length") {
            r.wave_length = param.clone();
        } else if str_eq(key, "update_trigger") {
            r.update_trigger = param.clone();
        } else if str_eq(key, "feedback_level") {
            r.feedback_level = param.clone();
        } else if str_eq(key, "mix") {
            r.mix = param.clone();
        }
        r
    }
}

/// A side-chain effect: rhythmic volume ducking.
#[derive(Debug, PartialEq, Eq)]
pub struct SideChain {
    pub period: String,
    pub hold_time: String,
    pub attack_time: String,
    pub release_time: String,
    pub ratio: String,
}

impl Clone for SideChain {
    fn clone(&self) -> (r: Self)
        ensures
            r == *self,
    {
        SideChain {
            period: self.period.clone(),
            hold_time: self.hold_time.clone(),
            attack_time: self.attack_time.clone(),
            release_time: self.release_time.clone(),
            ratio: self.ratio.clone(),
        }
    }
}

/// A copy of `e` with the parameter named `key` set to `param`; an
/// unrecognized key changes nothing.
pub open spec fn side_chain_derive(e: SideChain, key: Seq<char>, param: String) -> SideChain {
    if key == "period"@ {
        SideChain { period: param, ..e }
    } else if key == "hold_time"@ {
        SideChain { hold_time: param, ..e }
    } else if key == "attack_time"@ {
        SideChain { attack_time: param, ..e }
    } else if key == "release_time"@ {
        SideChain { release_time: param, ..e }
    } else if key == "ratio"@ {
        SideChain { ratio: param, ..e }
    } else {
        e
    }
}

impl SideChain {
    /// A copy with the parameter named `key` overridden to `param`;
    /// deriving on an unrecognized key is a no-op.
    pub fn derive(&self, key: &str, param: &String) -> (r: SideChain)
        ensures
            r == side_chain_derive(*self, key@, *param),
    {
        let mut r = self.clone();
        if str_eq(key, "period") {
            r.period = param.clone();
        } else if str_eq(key, "hold_time") {
            r.hold_time = param.clone();
        } else if str_eq(key, "attack_time") {
            r.attack_time = param.clone();
        } else if str_eq(key, "release_time") {
            r.release_time = param.clone();
        } else if str_eq(key, "ratio") {
            r.ratio = param.clone();
        }
        r
    }
}

/// A high-pass filter controlled by the laser position.
#[derive(Debug, PartialEq, Eq)]
pub struct HighPassFilter {
    pub v: String,
    pub freq: String,
    pub freq_max: String,
    pub q: String,
    pub delay: String,
    pub mix: String,
}

impl Clone for HighPassFilter {
    fn clone(&self) -> (r: Self)
        ensures
            r == *self,
    {
        HighPassFilter {
            v: self.v.clone(),
            freq: self.freq.clone(),
            freq_max: self.freq_max.clone(),
            q: self.q.clone(),
            delay: self.delay.clone(),
            mix: self.mix.clone(),
        }
    }
}

/// A copy of `e` with the parameter named `key` set to `param`; an
/// unrecognized key changes nothing.
pub open spec fn high_pass_filter_derive(e: HighPassFilter, key: Seq<char>, param: String) -> HighPassFilter {
    if key == "v"@ {
        HighPassFilter { v: param, ..e }
    } else if key == "freq"@ {
        HighPassFilter { freq: param, ..e }
    } else if key == "freq_max"@ {
        HighPassFilter { freq_max: param, ..e }
    } else if key == "q"@ {
        HighPassFilter { q: param, ..e }
    } else if key == "delay"@ {
        HighPassFilter { delay: param, ..e }
    } else if key == "mix"@ {
        HighPassFilter { mix: param, ..e }
    } else {
        e
    }
}

impl HighPassFilter {
    /// A copy with the parameter named `key` overridden to `param`;
    /// deriving on an unrecognized key is a no-op.
    pub fn derive(&self, key: &str, param: &String) -> (r: HighPassFilter)
        ensures
            r == high_pass_filter_derive(*self, key@, *param),
    {
        let mut r = self.clone();
        if str_eq(key, "v") {
            r.v = param.clone();
        } else if str_eq(key, "freq") {
            r.freq = param.clone();
        } else if str_eq(key, "freq_max") {
            r.freq_max = param.clone();
        } else if str_eq(key, "q") {
            r.q = param.clone();
        } else if str_eq(key, "delay") {
            r.delay = param.clone();
        } else if str_eq(key, "mix") {
            r.mix = param.clone();
        }
        r
    }
}

/// A low-pass filter controlled by the laser position.
#[derive(Debug, PartialEq, Eq)]
pub struct LowPassFilter {
    pub v: String,
    pub freq: String,
    pub freq_max: String,
    pub q: String,
    pub delay: String,
    pub mix: String,
}

impl Clone for LowPassFilter {
    fn clone(&self) -> (r: Self)
        ensures
            r == *self,
    {
        LowPassFilter {
            v: self.v.clone(),
            freq: self.freq.clone(),
            freq_max: self.freq_max.clone(),
            q: self.q.clone(),
            delay: self.delay.clone(),
            mix: self.mix.clone(),
        }
    }
}

/// A copy of `e` with the parameter named `key` set to `param`; an
/// unrecognized key changes nothing.
pub open spec fn low_pass_filter_derive(e: LowPassFilter, key: Seq<char>, param: String) -> LowPassFilter {
    if key == "v"@ {
        LowPassFilter { v: param, ..e }
    } else if key == "freq"@ {
        LowPassFilter { freq: param, ..e }
    } else if key == "freq_max"@ {
        LowPassFilter { freq_max: param, ..e }
    } else if key == "q"@ {
        LowPassFilter { q: param, ..e }
    } else if key == "delay"@ {
        LowPassFilter { delay: param, ..e }
    } else if key == "mix"@ {
        LowPassFilter { mix: param, ..e }
    } else {
        e
    }
}

impl LowPassFilter {
    /// A copy with the parameter named `key` overridden to `param`;
    /// deriving on an unrecognized key is a no-op.
    pub fn derive(&self, key: &str, param: &String) -> (r: LowPassFilter)
        ensures
            r == low_pass_filter_derive(*self, key@, *param),
    {
        let mut r = self.clone();
        if str_eq(key, "v") {
            r.v = param.clone();
        } else if str_eq(key, "freq") {
            r.freq = param.clone();
        } else if str_eq(key, "freq_max") {
            r.freq_max = param.clone();
        } else if str_eq(key, "q") {
            r.q = param.clone();
        } else if str_eq(key, "delay") {
            r.delay = param.clone();
        } else if str_eq(key, "mix") {
            r.mix = param.clone();
        }
        r
    }
}

/// A peaking filter controlled by the laser position.
#[derive(Debug, PartialEq, Eq)]
pub struct PeakingFilter {
    pub v: String,
    pub freq: String,
    pub freq_max: String,
    pub q: String,
    pub delay: String,
    pub mix: String,
}

impl Clone for PeakingFilter {
    fn clone(&self) -> (r: Self)
        ensures
            r == *self,
    {
        PeakingFilter {
            v: self.v.clone(),
            freq: self.freq.clone(),
            freq_max: self.freq_max.clone(),
            q: self.q.clone(),
            delay: self.delay.clone(),
            mix: self.mix.clone(),
        }
    }
}

/// A copy of `e` with the parameter named `key` set to `param`; an
/// unrecognized key changes nothing.
pub open spec fn peaking_filter_derive(e: PeakingFilter, key: Seq<char>, param: String) -> PeakingFilter {
    if key == "v"@ {
        PeakingFilter { v: param, ..e }
    } else if key == "freq"@ {
        PeakingFilter { freq: param, ..e }
    } else if key == "freq_max"@ {
        PeakingFilter { freq_max: param, ..e }
    } else if key == "q"@ {
        PeakingFilter { q: param, ..e }
    } else if key == "delay"@ {
        PeakingFilter { delay: param, ..e }
    } else if key == "mix"@ {
        PeakingFilter { mix: param, ..e }
    } else {
        e
    }
}

impl PeakingFilter {
    /// A copy with the parameter named `key` overridden to `param`;
    /// deriving on an unrecognized key is a no-op.
    pub fn derive(&self, key: &str, param: &String) -> (r: PeakingFilter)
        ensures
            r == peaking_filter_derive(*self, key@, *param),
    {
        let mut r = self.clone();
        if str_eq(key, "v") {
            r.v = param.clone();
        } else if str_eq(key, "freq") {
            r.freq = param.clone();
        } else if str_eq(key, "freq_max") {
            r.freq_max = param.clone();
        } else if str_eq(key, "q") {
            r.q = param.clone();
        } else if str_eq(key, "delay") {
            r.delay = param.clone();
        } else if str_eq(key, "mix") {
            r.mix = param.clone();
        }
        r
    }
}

/// One scheduled parameter change: from tick `y` on, the parameter named
/// `key` of the effect's definition reads `v`.
#[derive(Debug, PartialEq, Eq)]
pub struct ParamChange {
    /// Tick the change is scheduled at.
    pub y: u32,
    /// Parameter name.
    pub key: String,
    /// New raw parameter value.
    pub v: String,
}

impl Clone for ParamChange {
    fn clone(&self) -> (r: Self)
        ensures
            r == *self,
    {
        ParamChange { y: self.y, key: self.key.clone(), v: self.v.clone() }
    }
}

/// `root` with every change of `changes` applied, in order.
pub open spec fn apply_changes(root: AudioEffect, changes: Seq<ParamChange>) -> AudioEffect
    decreases changes.len(),
{
    if changes.len() == 0 {
        root
    } else {
        audio_effect_derive(
            apply_changes(root, changes.drop_last()),
            changes.last().key@,
            changes.last().v,
        )
    }
}

/// `root` with every change scheduled at or before `at` applied, in order:
/// the resolved effect snapshot at tick `at`. Changes scheduled after `at`
/// never influence the result (the resolver is causal); several changes to
/// one key apply in order, so the last one wins.
pub open spec fn resolve_spec(root: AudioEffect, changes: Seq<ParamChange>, at: int) -> AudioEffect
    decreases changes.len(),
{
    if changes.len() == 0 {
        root
    } else {
        let prev = resolve_spec(root, changes.drop_last(), at);
        if changes.last().y <= at {
            audio_effect_derive(prev, changes.last().key@, changes.last().v)
        } else {
            prev
        }
    }
}

/// Resolves the effect snapshot at tick `at`: folds every change of
/// `changes` with `y <= at`, in list order, onto `root`.
pub fn resolve(root: &AudioEffect, changes: &Vec<ParamChange>, at: u32) -> (r: AudioEffect)
    ensures
        r == resolve_spec(*root, changes@, at as int),
{
    let mut acc = root.clone();
    let mut i: usize = 0;
    proof {
        assert(changes@.take(0) =~= Seq::<ParamChange>::empty());
    }
    while i < changes.len()
        invariant
            i <= changes@.len(),
            acc == resolve_spec(*root, changes@.take(i as int), at as int),
        decreases changes@.len() - i,
    {
        proof {
            assert(changes@.take(i as int + 1).drop_last() =~= changes@.take(i as int));
            assert(changes@.take(i as int + 1).last() == changes@[i as int]);
        }
        let c = &changes[i];
        if c.y <= at {
            acc = acc.derive(c.key.as_str(), &c.v);
        }
        i = i + 1;
    }
    proof {
        assert(changes@.take(changes@.len() as int) =~= changes@);
    }
    acc
}

/// Resolution only reads the changes scheduled at or before `at`: it equals
/// applying exactly the filtered schedule.
pub proof fn lemma_resolve_is_filtered(root: AudioEffect, changes: Seq<ParamChange>, at: int)
    ensures
        resolve_spec(root, changes, at) == apply_changes(
            root,
            changes.filter(|c: ParamChange| c.y <= at),
        ),
    decreases changes.len(),
{
    reveal(Seq::filter);
    if changes.len() > 0 {
        lemma_resolve_is_filtered(root, changes.drop_last(), at);
        let f = changes.drop_last().filter(|c: ParamChange| c.y <= at);
        if changes.last().y <= at {
            assert(changes.filter(|c: ParamChange| c.y <= at) == f.push(changes.last()));
            assert(f.push(changes.last()).drop_last() =~= f);
        }
    }
}

/// The two change schedules agree on everything scheduled at or before
/// `at`: filtering each down to the changes with `y <= at` gives the same
/// list. Schedules differing only in changes after `at` agree at `at`.
pub open spec fn changes_agree_at(ch1: Seq<ParamChange>, ch2: Seq<ParamChange>, at: int) -> bool {
    ch1.filter(|c: ParamChange| c.y <= at) == ch2.filter(|c: ParamChange| c.y <= at)
}

/// The resolver is causal: two change schedules that agree on everything
/// scheduled at or before `at` resolve to the same snapshot at `at`, no
/// matter how they differ afterwards.
pub proof fn lemma_resolve_causal(
    root: AudioEffect,
    changes1: Seq<ParamChange>,
    changes2: Seq<ParamChange>,
    at: int,
)
    requires
        changes_agree_at(changes1, changes2, at),
    ensures
        resolve_spec(root, changes1, at) == resolve_spec(root, changes2, at),
{
    lemma_resolve_is_filtered(root, changes1, at);
    lemma_resolve_is_filtered(root, changes2, at);
}

/// The root effect definition named `name`: the first association with that
/// name, scanning in chart definition order.
pub open spec fn assoc_def(defs: Seq<(String, AudioEffect)>, name: Seq<char>) -> Option<
    AudioEffect,
>
    decreases defs.len(),
{
    if defs.len() == 0 {
        None
    } else if defs[0].0@ == name {
        Some(defs[0].1)
    } else {
        assoc_def(defs.drop_first(), name)
    }
}

/// The root effect definition named `name`, if the bank has one.
fn assoc_def_exec<'a>(defs: &'a Vec<(String, AudioEffect)>, name: &str) -> (r: Option<
    &'a AudioEffect,
>)
    ensures
        match r {
            Some(e) => assoc_def(defs@, name@) == Some(*e),
            None => assoc_def(defs@, name@) is None,
        },
{
    let mut i: usize = 0;
    proof {
        assert(defs@.skip(0) =~= defs@);
    }
    while i < defs.len()
        invariant
            i <= defs@.len(),
            assoc_def(defs@, name@) == assoc_def(defs@.skip(i as int), name@),
        decreases defs@.len() - i,
    {
        proof {
            assert(defs@.skip(i as int)[0] == defs@[i as int]);
        }
        if str_eq(defs[i].0.as_str(), name) {
            return Some(&defs[i].1);
        }
        proof {
            assert(defs@.skip(i as int).drop_first() =~= defs@.skip(i as int + 1));
        }
        i = i + 1;
    }
    None
}

/// The scheduled parameter changes of the definition named `name`: the first
/// association with that name, or no changes at all when there is none.
pub open spec fn assoc_changes(pcs: Seq<(String, Vec<ParamChange>)>, name: Seq<char>) -> Seq<
    ParamChange,
>
    decreases pcs.len(),
{
    if pcs.len() == 0 {
        Seq::empty()
    } else if pcs[0].0@ == name {
        pcs[0].1@
    } else {
        assoc_changes(pcs.drop_first(), name)
    }
}

/// The scheduled parameter changes of the definition named `name`, if any.
fn assoc_changes_exec<'a>(pcs: &'a Vec<(String, Vec<ParamChange>)>, name: &str) -> (r: Option<
    &'a Vec<ParamChange>,
>)
    ensures
        match r {
            Some(v) => assoc_changes(pcs@, name@) == v@,
            None => assoc_changes(pcs@, name@) == Seq::<ParamChange>::empty(),
        },
{
    let mut i: usize = 0;
    proof {
        assert(pcs@.skip(0) =~= pcs@);
    }
    while i < pcs.len()
        invariant
            i <= pcs@.len(),
            assoc_changes(pcs@, name@) == assoc_changes(pcs@.skip(i as int), name@),
        decreases pcs@.len() - i,
    {
        proof {
            assert(pcs@.skip(i as int)[0] == pcs@[i as int]);
        }
        if str_eq(pcs[i].0.as_str(), name) {
            return Some(&pcs[i].1);
        }
        proof {
            assert(pcs@.skip(i as int).drop_first() =~= pcs@.skip(i as int + 1));
        }
        i = i + 1;
    }
    None
}

/// The per-side long event lists of the definition named `name`.
pub open spec fn assoc_long(les: Seq<(String, [Vec<FxLongEvent>; 2])>, name: Seq<char>) -> Option<
    [Vec<FxLongEvent>; 2],
>
    decreases les.len(),
{
    if les.len() == 0 {
        None
    } else if les[0].0@ == name {
        Some(les[0].1)
    } else {
        assoc_long(les.drop_first(), name)
    }
}

/// The per-side long event lists of the definition named `name`, if any.
fn assoc_long_exec<'a>(les: &'a Vec<(String, [Vec<FxLongEvent>; 2])>, name: &str) -> (r: Option<
    &'a [Vec<FxLongEvent>; 2],
>)
    ensures
        match r {
            Some(a) => assoc_long(les@, name@) == Some(*a),
            None => assoc_long(les@, name@) is None,
        },
{
    let mut i: usize = 0;
    proof {
        assert(les@.skip(0) =~= les@);
    }
    while i < les.len()
        invariant
            i <= les@.len(),
            assoc_long(les@, name@) == assoc_long(les@.skip(i as int), name@),
        decreases les@.len() - i,
    {
        proof {
            assert(les@.skip(i as int)[0] == les@[i as int]);
        }
        if str_eq(les[i].0.as_str(), name) {
            return Some(&les[i].1);
        }
        proof {
            assert(les@.skip(i as int).drop_first() =~= les@.skip(i as int + 1));
        }
        i = i + 1;
    }
    None
}

/// The first note of `lane` starting exactly at tick `y`, scanning in lane
/// order.
pub open spec fn find_note_at(lane: Seq<Interval>, y: int) -> Option<Interval>
    decreases lane.len(),
{
    if lane.len() == 0 {
        None
    } else if lane[0].y == y {
        Some(lane[0])
    } else {
        find_note_at(lane.drop_first(), y)
    }
}

/// A lane where no note starts at `y` yields no match.
proof fn lemma_find_note_none(lane: Seq<Interval>, y: int)
    requires
        forall|i: int| 0 <= i < lane.len() ==> (#[trigger] lane[i]).y != y,
    ensures
        find_note_at(lane, y) is None,
    decreases lane.len(),
{
    if lane.len() > 0 {
        assert(forall|i: int|
            0 <= i < lane.drop_first().len() ==> (#[trigger] lane.drop_first()[i]).y != y);
        lemma_find_note_none(lane.drop_first(), y);
    }
}

/// In a lane split at `idx` (starts before `idx` strictly below `y`, starts
/// from `idx` on at or above it), the match is at `idx` or nowhere.
proof fn lemma_find_note_split(lane: Seq<Interval>, y: int, idx: int)
    requires
        lane_sorted(lane),
        0 <= idx <= lane.len(),
        forall|i: int| 0 <= i < idx ==> (#[trigger] lane[i]).y < y,
        forall|i: int| idx <= i < lane.len() ==> (#[trigger] lane[i]).y >= y,
    ensures
        find_note_at(lane, y) == if idx < lane.len() && lane[idx].y == y {
            Some(lane[idx])
        } else {
            None::<Interval>
        },
    decreases lane.len(),
{
    if lane.len() == 0 {
    } else if idx == 0 {
        if lane[0].y == y {
        } else {
            assert(lane[0].y > y);
            assert forall|i: int| 0 <= i < lane.len() implies (#[trigger] lane[i]).y != y by {
                if i > 0 {
                    assert(lane[0].y < lane[i].y);
                }
            }
            lemma_find_note_none(lane, y);
        }
    } else {
        assert(lane[0].y < y);
        let rest = lane.drop_first();
        assert(forall|i: int, j: int|
            0 <= i < j < rest.len() ==> (#[trigger] rest[i]).y < (#[trigger] rest[j]).y) by {
            assert(forall|i: int| 0 <= i < rest.len() ==> rest[i] == lane[i + 1]);
        }
        assert(forall|i: int| 0 <= i < idx - 1 ==> (#[trigger] rest[i]).y < y);
        assert(forall|i: int| idx - 1 <= i < rest.len() ==> (#[trigger] rest[i]).y >= y);
        lemma_find_note_split(rest, y, idx - 1);
        if idx < lane.len() {
            assert(rest[idx - 1] == lane[idx]);
        }
    }
}

/// The note of `lane` starting exactly at tick `y`, found by binary search
/// over the lane's start ticks.
fn find_note_at_exec(lane: &Vec<Interval>, y: u32) -> (r: Option<Interval>)
    requires
        lane_sorted(lane@),
    ensures
        r == find_note_at(lane@, y as int),
{
    let mut lo: usize = 0;
    let mut hi: usize = lane.len();
    while lo < hi
        invariant
            lo <= hi <= lane@.len(),
            lane_sorted(lane@),
            forall|k: int| 0 <= k < lo ==> (#[trigger] lane@[k]).y < y,
            forall|k: int| hi <= k < lane@.len() ==> (#[trigger] lane@[k]).y >= y,
        decreases hi - lo,
    {
        let mid = lo + (hi - lo) / 2;
        if lane[mid].y < y {
            lo = mid + 1;
        } else {
            hi = mid;
        }
    }
    proof {
        lemma_find_note_split(lane@, y as int, lo as int);
    }
    if lo < lane.len() && lane[lo].y == y {
        Some(lane[lo])
    } else {
        None
    }
}

/// `cur` updated by one pulse event: the event replaces the best candidate
/// when it lies at or before `y` and is no earlier than the current best
/// (a later event at the same tick wins, like a later definition's event).
pub open spec fn pulse_step(cur: Option<(int, int)>, idx: int, t: int, y: int) -> Option<
    (int, int),
> {
    if t <= y && match cur {
        Some(p) => t >= p.1,
        None => true,
    } {
        Some((idx, t))
    } else {
        cur
    }
}

/// `cur` updated by every pulse tick of definition number `idx`, in order.
pub open spec fn best_pulse_in(ticks: Seq<u32>, idx: int, y: int, cur: Option<(int, int)>) -> Option<
    (int, int),
>
    decreases ticks.len(),
{
    if ticks.len() == 0 {
        cur
    } else {
        best_pulse_in(ticks.drop_first(), idx, y, pulse_step(cur, idx, ticks[0] as int, y))
    }
}

/// The most recent pulse activation at or before `y`, walking every
/// definition's pulse events from entry `i` on: the definition index and
/// tick of the latest event with tick at or before `y` (the last such event
/// on a tie), or `None` when no event qualifies.
pub open spec fn best_pulse(pe: Seq<(String, Vec<u32>)>, i: int, y: int, cur: Option<(int, int)>) -> Option<
    (int, int),
>
    decreases pe.len() - i,
{
    if 0 <= i && i < pe.len() {
        best_pulse(pe, i + 1, y, best_pulse_in(pe[i].1@, i, y, cur))
    } else {
        cur
    }
}

/// The mathematical value of an executable pulse candidate.
pub open spec fn pulse_view(cur: Option<(usize, u32)>) -> Option<(int, int)> {
    match cur {
        Some(p) => Some((p.0 as int, p.1 as int)),
        None => None,
    }
}

/// Finds the most recent pulse activation at or before `y`: the qualifying
/// definition's index in `pe` and the activation tick.
fn best_pulse_exec(pe: &Vec<(String, Vec<u32>)>, y: u32) -> (r: Option<(usize, u32)>)
    ensures
        best_pulse(pe@, 0, y as int, None) == pulse_view(r),
        match r {
            Some(p) => p.0 < pe@.len(),
            None => true,
        },
{
    let mut cur: Option<(usize, u32)> = None;
    let ghost full = best_pulse(pe@, 0, y as int, None);
    let mut i: usize = 0;
    while i < pe.len()
        invariant
            i <= pe@.len(),
            match cur {
                Some(p) => p.0 < i,
                None => true,
            },
            full == best_pulse(pe@, i as int, y as int, pulse_view(cur)),
        decreases pe@.len() - i,
    {
        let ticks = &pe[i].1;
        let ghost cur0 = pulse_view(cur);
        let mut k: usize = 0;
        proof {
            assert(ticks@.skip(0) =~= ticks@);
        }
        while k < ticks.len()
            invariant
                i < pe@.len(),
                k <= ticks@.len(),
                ticks@ == pe@[i as int].1@,
                match cur {
                    Some(p) => p.0 <= i,
                    None => true,
                },
                best_pulse_in(pe@[i as int].1@, i as int, y as int, cur0) == best_pulse_in(
                    ticks@.skip(k as int),
                    i as int,
                    y as int,
                    pulse_view(cur),
                ),
            decreases ticks@.len() - k,
        {
            proof {
                assert(ticks@.skip(k as int)[0] == ticks@[k as int]);
                assert(ticks@.skip(k as int).drop_first() =~= ticks@.skip(k as int + 1));
            }
            let t = ticks[k];
            let qualifies = t <= y && match cur {
                Some(p) => t >= p.1,
                None => true,
            };
            if qualifies {
                cur = Some((i, t));
            }
            k = k + 1;
        }
        proof {
            assert(ticks@.skip(ticks@.len() as int) =~= Seq::<u32>::empty());
        }
        i = i + 1;
    }
    cur
}

/// A resolved effect assignment: over `interval`, the mixer runs `effect` on
/// `track`. `dom` marks the assignment as the authoritative one for its
/// span; the compiler always emits `true` (reserved for future
/// overlapping-effect resolution).
#[derive(Debug, PartialEq, Eq)]
pub struct EffectInterval {
    /// The span the effect is active over.
    pub interval: Interval,
    /// The resolved effect snapshot, fixed at the interval's start.
    pub effect: AudioEffect,
    /// The track the effect is assigned to.
    pub track: Option<Track>,
    /// Whether this assignment is the dominant one for its span.
    pub dom: bool,
}

impl Clone for EffectInterval {
    fn clone(&self) -> (r: Self)
        ensures
            r == *self,
    {
        EffectInterval {
            interval: self.interval,
            effect: self.effect.clone(),
            track: self.track,
            dom: self.dom,
        }
    }
}

/// `s` is ordered by non-decreasing interval start.
pub open spec fn sorted_by_start(s: Seq<EffectInterval>) -> bool {
    forall|i: int, j: int| 0 <= i < j < s.len() ==> s[i].interval.y <= s[j].interval.y
}

/// `t` inserted into `s` after every element starting at or before `t`: the
/// insertion a stable sort performs.
pub open spec fn insert_by_start(s: Seq<EffectInterval>, t: EffectInterval) -> Seq<EffectInterval>
    decreases s.len(),
{
    if s.len() > 0 && s.last().interval.y > t.interval.y {
        insert_by_start(s.drop_last(), t).push(s.last())
    } else {
        s.push(t)
    }
}

/// `s` stably sorted by interval start: elements with equal starts keep
/// their relative order in `s`.
pub open spec fn sort_by_start(s: Seq<EffectInterval>) -> Seq<EffectInterval>
    decreases s.len(),
{
    if s.len() == 0 {
        Seq::empty()
    } else {
        insert_by_start(sort_by_start(s.drop_last()), s.last())
    }
}

pub proof fn lemma_insert_by_start_sorted(s: Seq<EffectInterval>, t: EffectInterval)
    requires
        sorted_by_start(s),
    ensures
        sorted_by_start(insert_by_start(s, t)),
        insert_by_start(s, t).to_multiset() == s.to_multiset().insert(t),
        insert_by_start(s, t).len() == s.len() + 1,
    decreases s.len(),
{
    broadcast use vstd::seq_lib::group_seq_properties;

    if s.len() > 0 && s.last().interval.y > t.interval.y {
        assert(forall|i: int, j: int|
            0 <= i < j < s.drop_last().len() ==> s.drop_last()[i].interval.y
                <= s.drop_last()[j].interval.y);
        lemma_insert_by_start_sorted(s.drop_last(), t);
        let r = insert_by_start(s.drop_last(), t);
        assert forall|i: int| 0 <= i < r.len() implies r.push(s.last())[i].interval.y
            <= s.last().interval.y by {
            assert(r.to_multiset().contains(r[i]));
            if r[i] == t {
            } else {
                assert(s.drop_last().to_multiset().contains(r[i]));
                let k = choose|k: int|
                    0 <= k < s.drop_last().len() && s.drop_last()[k] == r[i];
                assert(s[k].interval.y <= s.last().interval.y);
            }
        }
        assert(s.drop_last().push(s.last()) =~= s);
        assert(s.drop_last().to_multiset().insert(s.last()) == s.to_multiset()) by {
            vstd::seq_lib::lemma_seq_union_to_multiset_commutative(
                s.drop_last(),
                seq![s.last()],
            );
            assert(s.drop_last() + seq![s.last()] =~= s);
            assert(seq![s.last()] + s.drop_last() =~= s.drop_last().insert(0, s.last()));
        }
    } else {
        assert(s.push(t) =~= s + seq![t]);
    }
}

pub proof fn lemma_sort_by_start_sorted(s: Seq<EffectInterval>)
    ensures
        sorted_by_start(sort_by_start(s)),
        sort_by_start(s).to_multiset() == s.to_multiset(),
        sort_by_start(s).len() == s.len(),
    decreases s.len(),
{
    broadcast use vstd::seq_lib::group_seq_properties;

    if s.len() > 0 {
        lemma_sort_by_start_sorted(s.drop_last());
        lemma_insert_by_start_sorted(sort_by_start(s.drop_last()), s.last());
        assert(s.drop_last().push(s.last()) =~= s);
    }
}

/// Stable insertion sort of effect intervals by start tick. Assignments
/// starting at the same tick keep the order the passes emitted them in.
fn sort_effect_intervals(v: Vec<EffectInterval>) -> (r: Vec<EffectInterval>)
    ensures
        r@ == sort_by_start(v@),
        sorted_by_start(r@),
{
    let mut out: Vec<EffectInterval> = Vec::new();
    let mut i: usize = 0;
    proof {
        assert(v@.take(0) =~= Seq::<EffectInterval>::empty());
        lemma_sort_by_start_sorted(v@.take(0));
    }
    while i < v.len()
        invariant
            i <= v@.len(),
            out@ == sort_by_start(v@.take(i as int)),
            sorted_by_start(out@),
        decreases v@.len() - i,
    {
        let t = v[i].clone();
        let mut j: usize = out.len();
        proof {
            assert(out@.skip(j as int) =~= Seq::<EffectInterval>::empty());
            assert(insert_by_start(out@, t) == insert_by_start(out@.take(j as int), t)
                + out@.skip(j as int)) by {
                assert(out@.take(j as int) =~= out@);
                assert(insert_by_start(out@, t) + Seq::<EffectInterval>::empty()
                    =~= insert_by_start(out@, t));
            }
        }
        while j > 0 && out[j - 1].interval.y > t.interval.y
            invariant
                j <= out@.len(),
                sorted_by_start(out@),
                insert_by_start(out@, t) == insert_by_start(out@.take(j as int), t) + out@.skip(
                    j as int,
                ),
                j < out@.len() ==> out@[j as int].interval.y > t.interval.y,
            decreases j,
        {
            proof {
                let pre = out@.take(j as int);
                assert(pre.last() == out@[j as int - 1]);
                assert(pre.drop_last() =~= out@.take(j as int - 1));
                assert(insert_by_start(pre, t) == insert_by_start(out@.take(j as int - 1), t).push(
                    out@[j as int - 1],
                ));
                assert(insert_by_start(out@.take(j as int - 1), t).push(out@[j as int - 1])
                    + out@.skip(j as int) =~= insert_by_start(out@.take(j as int - 1), t)
                    + out@.skip(j as int - 1));
            }
            j = j - 1;
        }
        proof {
            let pre = out@.take(j as int);
            assert(!(pre.len() > 0 && pre.last().interval.y > t.interval.y));
            assert(insert_by_start(pre, t) == pre.push(t));
            assert(pre.push(t) + out@.skip(j as int) =~= out@.insert(j as int, t));
        }
        out.insert(j, t);
        proof {
            assert(v@.take(i as int + 1).drop_last() =~= v@.take(i as int));
            assert(v@.take(i as int + 1).last() == v@[i as int]);
            lemma_insert_by_start_sorted(sort_by_start(v@.take(i as int)), v@[i as int]);
        }
        i = i + 1;
    }
    proof {
        assert(v@.take(v@.len() as int) =~= v@);
    }
    out
}

/// `e` with every override pair `(key, value)` applied, in order.
pub open spec fn apply_pairs(e: AudioEffect, ps: Seq<(String, String)>) -> AudioEffect
    decreases ps.len(),
{
    if ps.len() == 0 {
        e
    } else {
        audio_effect_derive(apply_pairs(e, ps.drop_last()), ps.last().0@, ps.last().1)
    }
}

/// `e` with a long event's optional override parameters applied: overrides
/// layer after (and so take precedence over) scheduled changes.
pub open spec fn apply_override(e: AudioEffect, params: Option<Vec<(String, String)>>) -> AudioEffect {
    match params {
        Some(ps) => apply_pairs(e, ps@),
        None => e,
    }
}

/// Applies a long event's optional override parameters to `e`, in order.
fn apply_override_exec(e: AudioEffect, params: &Option<Vec<(String, String)>>) -> (r: AudioEffect)
    ensures
        r == apply_override(e, *params),
{
    match params {
        None => e,
        Some(ps) => {
            let mut acc = e;
            let ghost e0 = acc;
            let mut k: usize = 0;
            proof {
                assert(ps@.take(0) =~= Seq::<(String, String)>::empty());
            }
            while k < ps.len()
                invariant
                    k <= ps@.len(),
                    acc == apply_pairs(e0, ps@.take(k as int)),
                decreases ps@.len() - k,
            {
                proof {
                    assert(ps@.take(k as int + 1).drop_last() =~= ps@.take(k as int));
                    assert(ps@.take(k as int + 1).last() == ps@[k as int]);
                }
                let pair = &ps[k];
                acc = acc.derive(pair.0.as_str(), &pair.1);
                k = k + 1;
            }
            proof {
                assert(ps@.take(ps@.len() as int) =~= ps@);
            }
            acc
        },
    }
}

/// The effect intervals of one definition's long events on one FX lane
/// side, in event order: each event whose tick matches a note of that lane
/// emits the resolved snapshot (scheduled changes at the event's tick, then
/// the event's own overrides) over the note's span; an event with no
/// matching note is silently dropped.
pub open spec fn fx_event_intervals(
    c: Chart,
    root: AudioEffect,
    changes: Seq<ParamChange>,
    side: int,
    evs: Seq<FxLongEvent>,
) -> Seq<EffectInterval>
    decreases evs.len(),
{
    if evs.len() == 0 {
        Seq::empty()
    } else {
        let prev = fx_event_intervals(c, root, changes, side, evs.drop_last());
        let ev = evs.last();
        prev + match find_note_at(c.note.fx@[side]@, ev.y as int) {
            None => Seq::empty(),
            Some(iv) => seq![
                EffectInterval {
                    interval: iv,
                    effect: apply_override(resolve_spec(root, changes, ev.y as int), ev.params),
                    track: Some(Track::FX(side_of(side))),
                    dom: true,
                },
            ],
        }
    }
}

/// The effect intervals of the FX definitions from entry `i` on, in
/// definition order: each definition's long events on the left side, then on
/// the right side. A definition with no long events emits nothing.
pub open spec fn fx_def_intervals(c: Chart, bank: FxEffectBank, i: int) -> Seq<EffectInterval>
    decreases bank.def@.len() - i,
{
    if 0 <= i && i < bank.def@.len() {
        let name = bank.def@[i].0;
        let root = bank.def@[i].1;
        let cur = match assoc_long(bank.long_event@, name@) {
            None => Seq::empty(),
            Some(arr) => {
                let changes = assoc_changes(bank.param_change@, name@);
                fx_event_intervals(c, root, changes, 0, arr@[0]@) + fx_event_intervals(
                    c,
                    root,
                    changes,
                    1,
                    arr@[1]@,
                )
            },
        };
        cur + fx_def_intervals(c, bank, i + 1)
    } else {
        Seq::empty()
    }
}

/// The effect intervals of one laser lane side's sections from section `j`
/// on, in section order: each section spans from its start to its last
/// control point, takes the definition of the most recent pulse activation
/// at or before its start (none: the section is skipped), and emits that
/// definition resolved at the section's start.
pub open spec fn laser_side_intervals(c: Chart, bank: LaserEffectBank, side: int, j: int) -> Seq<
    EffectInterval,
>
    decreases c.note.laser@[side]@.len() - j,
{
    let secs = c.note.laser@[side]@;
    if 0 <= j && j < secs.len() {
        let sec = secs[j];
        let iv = Interval {
            y: sec.y,
            l: if sec.v@.len() > 0 {
                sec.v@.last().ry
            } else {
                0
            },
        };
        let cur = match best_pulse(bank.pulse_event@, 0, iv.y as int, None) {
            None => Seq::empty(),
            Some(p) => {
                let name = bank.pulse_event@[p.0].0;
                match assoc_def(bank.def@, name@) {
                    None => Seq::empty(),
                    Some(root) => seq![
                        EffectInterval {
                            interval: iv,
                            effect: resolve_spec(
                                root,
                                assoc_changes(bank.param_change@, name@),
                                iv.y as int,
                            ),
                            track: Some(Track::Laser(side_of(side))),
                            dom: true,
                        },
                    ],
                }
            },
        };
        cur + laser_side_intervals(c, bank, side, j + 1)
    } else {
        Seq::empty()
    }
}

/// Every effect interval of the chart before sorting: the FX pass, then the
/// left laser lane's pass, then the right one's. A chart without effect
/// schedules has none.
pub open spec fn effect_tracks_raw(c: Chart) -> Seq<EffectInterval> {
    match c.audio.audio_effect {
        None => Seq::empty(),
        Some(bank) => fx_def_intervals(c, bank.fx, 0) + laser_side_intervals(c, bank.laser, 0, 0)
            + laser_side_intervals(c, bank.laser, 1, 0),
    }
}

/// The chart's effect interval timeline: every resolved effect assignment,
/// stably sorted by interval start. A function of the chart alone, so two
/// compilations of one chart agree exactly.
pub open spec fn effect_tracks_spec(c: Chart) -> Seq<EffectInterval> {
    sort_by_start(effect_tracks_raw(c))
}

/// Appends one definition's long events of one FX lane side to `res`.
fn push_fx_events(
    chart: &Chart,
    root: &AudioEffect,
    changes: Option<&Vec<ParamChange>>,
    side: usize,
    evs: &Vec<FxLongEvent>,
    res: &mut Vec<EffectInterval>,
)
    requires
        chart.wf(),
        side < 2,
    ensures
        final(res)@ == old(res)@ + fx_event_intervals(
            *chart,
            *root,
            match changes {
                Some(v) => v@,
                None => Seq::<ParamChange>::empty(),
            },
            side as int,
            evs@,
        ),
{
    let ghost ch = match changes {
        Some(v) => v@,
        None => Seq::<ParamChange>::empty(),
    };
    let mut k: usize = 0;
    proof {
        assert(evs@.take(0) =~= Seq::<FxLongEvent>::empty());
        assert(res@ =~= res@ + Seq::<EffectInterval>::empty());
    }
    while k < evs.len()
        invariant
            chart.wf(),
            side < 2,
            k <= evs@.len(),
            ch == match changes {
                Some(v) => v@,
                None => Seq::<ParamChange>::empty(),
            },
            res@ == old(res)@ + fx_event_intervals(
                *chart,
                *root,
                ch,
                side as int,
                evs@.take(k as int),
            ),
        decreases evs@.len() - k,
    {
        let ev = &evs[k];
        proof {
            assert(lane_sorted(chart.note.fx@[side as int]@));
        }
        let found = find_note_at_exec(&chart.note.fx[side], ev.y);
        match found {
            Some(iv) => {
                let base = match changes {
                    Some(chv) => resolve(root, chv, ev.y),
                    None => root.clone(),
                };
                proof {
                    if changes is None {
                        assert(ch.len() == 0);
                        assert(resolve_spec(*root, ch, ev.y as int) == *root);
                    }
                    assert(base == resolve_spec(*root, ch, ev.y as int));
                }
                let eff = apply_override_exec(base, &ev.params);
                let track = if side == 0 {
                    Track::FX(Side::Left)
                } else {
                    Track::FX(Side::Right)
                };
                res.push(EffectInterval { interval: iv, effect: eff, track: Some(track), dom: true });
            },
            None => {},
        }
        proof {
            assert(evs@.take(k as int + 1).drop_last() =~= evs@.take(k as int));
            assert(evs@.take(k as int + 1).last() == evs@[k as int]);
            let prev = fx_event_intervals(*chart, *root, ch, side as int, evs@.take(k as int));
            let cur = match find_note_at(chart.note.fx@[side as int]@, evs@[k as int].y as int) {
                None => Seq::<EffectInterval>::empty(),
                Some(iv) => seq![
                    EffectInterval {
                        interval: iv,
                        effect: apply_override(
                            resolve_spec(*root, ch, evs@[k as int].y as int),
                            evs@[k as int].params,
                        ),
                        track: Some(Track::FX(side_of(side as int))),
                        dom: true,
                    },
                ],
            };
            assert(old(res)@ + (prev + cur) =~= (old(res)@ + prev) + cur);
            assert(res@ =~= (old(res)@ + prev) + cur);
        }
        k = k + 1;
    }
    proof {
        assert(evs@.take(evs@.len() as int) =~= evs@);
    }
}

/// Appends one laser lane side's effect intervals to `res`.
fn push_laser_side(chart: &Chart, bank: &LaserEffectBank, side: usize, res: &mut Vec<
    EffectInterval,
>)
    requires
        chart.wf(),
        side < 2,
    ensures
        final(res)@ == old(res)@ + laser_side_intervals(*chart, *bank, side as int, 0),
{
    let mut j: usize = 0;
    proof {
        assert(res@ =~= res@ + Seq::<EffectInterval>::empty());
    }
    while j < chart.note.laser[side].len()
        invariant
            chart.wf(),
            side < 2,
            j <= chart.note.laser@[side as int]@.len(),
            old(res)@ + laser_side_intervals(*chart, *bank, side as int, 0) == res@
                + laser_side_intervals(*chart, *bank, side as int, j as int),
        decreases chart.note.laser@[side as int]@.len() - j,
    {
        let ghost res0 = res@;
        let sec = &chart.note.laser[side][j];
        let l: u32 = if sec.v.len() > 0 {
            sec.v[sec.v.len() - 1].ry
        } else {
            0
        };
        let iv = Interval { y: sec.y, l };
        proof {
            assert(sec.v@.len() > 0 ==> sec.v@[sec.v@.len() - 1] == sec.v@.last());
        }
        match best_pulse_exec(&bank.pulse_event, iv.y) {
            None => {},
            Some(p) => {
                let name = &bank.pulse_event[p.0].0;
                match assoc_def_exec(&bank.def, name.as_str()) {
                    None => {},
                    Some(root) => {
                        let changes = assoc_changes_exec(&bank.param_change, name.as_str());
                        let eff = match changes {
                            Some(chv) => resolve(root, chv, iv.y),
                            None => root.clone(),
                        };
                        proof {
                            assert(eff == resolve_spec(
                                *root,
                                assoc_changes(bank.param_change@, name@),
                                iv.y as int,
                            ));
                        }
                        let track = if side == 0 {
                            Track::Laser(Side::Left)
                        } else {
                            Track::Laser(Side::Right)
                        };
                        res.push(
                            EffectInterval { interval: iv, effect: eff, track: Some(track), dom: true },
                        );
                    },
                }
            },
        }
        proof {
            let secs = chart.note.laser@[side as int]@;
            let siv = Interval {
                y: secs[j as int].y,
                l: if secs[j as int].v@.len() > 0 {
                    secs[j as int].v@.last().ry
                } else {
                    0
                },
            };
            let cur = match best_pulse(bank.pulse_event@, 0, siv.y as int, None) {
                None => Seq::<EffectInterval>::empty(),
                Some(p) => {
                    let pname = bank.pulse_event@[p.0].0;
                    match assoc_def(bank.def@, pname@) {
                        None => Seq::<EffectInterval>::empty(),
                        Some(proot) => seq![
                            EffectInterval {
                                interval: siv,
                                effect: resolve_spec(
                                    proot,
                                    assoc_changes(bank.param_change@, pname@),
                                    siv.y as int,
                                ),
                                track: Some(Track::Laser(side_of(side as int))),
                                dom: true,
                            },
                        ],
                    }
                },
            };
            assert(laser_side_intervals(*chart, *bank, side as int, j as int) == cur
                + laser_side_intervals(*chart, *bank, side as int, j as int + 1));
            assert(res@ =~= res0 + cur);
            assert(res0 + (cur + laser_side_intervals(*chart, *bank, side as int, j as int + 1))
                =~= (res0 + cur) + laser_side_intervals(*chart, *bank, side as int, j as int + 1));
        }
        j = j + 1;
    }
    proof {
        assert(laser_side_intervals(*chart, *bank, side as int, j as int)
            =~= Seq::<EffectInterval>::empty());
        assert(res@ =~= res@ + Seq::<EffectInterval>::empty());
    }
}

impl Chart {
    /// Compiles the chart's effect interval timeline: one resolved effect
    /// assignment per matched FX long event and per effected laser section,
    /// sorted ascending by interval start. Unmatched events and sections
    /// with no applicable pulse activation are dropped, not errors.
    pub fn get_effect_tracks(&self) -> (res: Vec<EffectInterval>)
        requires
            self.wf(),
        ensures
            res@ == effect_tracks_spec(*self),
            sorted_by_start(res@),
    {
        let mut acc: Vec<EffectInterval> = Vec::new();
        let bank = match &self.audio.audio_effect {
            Some(a) => a,
            None => {
                proof {
                    assert(effect_tracks_raw(*self) =~= Seq::<EffectInterval>::empty());
                    assert(effect_tracks_spec(*self) =~= Seq::<EffectInterval>::empty());
                }
                return acc;
            },
        };
        let mut i: usize = 0;
        proof {
            assert(acc@ =~= acc@ + Seq::<EffectInterval>::empty());
        }
        while i < bank.fx.def.len()
            invariant
                self.wf(),
                self.audio.audio_effect == Some(*bank),
                i <= bank.fx.def@.len(),
                fx_def_intervals(*self, bank.fx, 0) == acc@ + fx_def_intervals(
                    *self,
                    bank.fx,
                    i as int,
                ),
            decreases bank.fx.def@.len() - i,
        {
            let ghost acc0 = acc@;
            let name = &bank.fx.def[i].0;
            let root = &bank.fx.def[i].1;
            match assoc_long_exec(&bank.fx.long_event, name.as_str()) {
                None => {
                    proof {
                        assert(acc@ =~= acc@ + Seq::<EffectInterval>::empty());
                    }
                },
                Some(arr) => {
                    let changes = assoc_changes_exec(&bank.fx.param_change, name.as_str());
                    push_fx_events(self, root, changes, 0, &arr[0], &mut acc);
                    push_fx_events(self, root, changes, 1, &arr[1], &mut acc);
                    proof {
                        let ch = assoc_changes(bank.fx.param_change@, name@);
                        let e0 = fx_event_intervals(*self, *root, ch, 0, arr@[0]@);
                        let e1 = fx_event_intervals(*self, *root, ch, 1, arr@[1]@);
                        assert(acc@ =~= acc0 + (e0 + e1));
                    }
                },
            }
            proof {
                let cur = match assoc_long(bank.fx.long_event@, name@) {
                    None => Seq::<EffectInterval>::empty(),
                    Some(arr) => {
                        let ch = assoc_changes(bank.fx.param_change@, name@);
                        fx_event_intervals(*self, *root, ch, 0, arr@[0]@) + fx_event_intervals(
                            *self,
                            *root,
                            ch,
                            1,
                            arr@[1]@,
                        )
                    },
                };
                assert(fx_def_intervals(*self, bank.fx, i as int) == cur + fx_def_intervals(
                    *self,
                    bank.fx,
                    i as int + 1,
                ));
                assert((acc0 + cur) + fx_def_intervals(*self, bank.fx, i as int + 1) =~= acc0 + (cur
                    + fx_def_intervals(*self, bank.fx, i as int + 1)));
            }
            i = i + 1;
        }
        proof {
            assert(fx_def_intervals(*self, bank.fx, i as int) =~= Seq::<EffectInterval>::empty());
            assert(acc@ =~= acc@ + Seq::<EffectInterval>::empty());
            assert(acc@ == fx_def_intervals(*self, bank.fx, 0));
        }
        push_laser_side(self, &bank.laser, 0, &mut acc);
        push_laser_side(self, &bank.laser, 1, &mut acc);
        proof {
            assert(acc@ =~= effect_tracks_raw(*self));
        }
        sort_effect_intervals(acc)
    }
}

/// Some FX long event of the bank is scheduled at tick `t` (so the FX pass
/// resolves a snapshot at `t`).
pub open spec fn fx_resolution_tick(bank: FxEffectBank, t: int) -> bool {
    exists|i: int, side: int, k: int|
        0 <= i < bank.long_event@.len() && 0 <= side < 2 && 0 <= k
            < bank.long_event@[i].1@[side]@.len() && (#[trigger] bank.long_event@[i].1@[side]@[k]).y
            == t
}

/// Some laser section of the chart starts at tick `t` (so the laser pass
/// resolves a snapshot at `t`).
pub open spec fn laser_resolution_tick(c: Chart, t: int) -> bool {
    exists|side: int, j: int|
        0 <= side < 2 && 0 <= j < c.note.laser@[side]@.len() && (
        #[trigger] c.note.laser@[side]@[j]).y == t
}

/// A found long-event table is the table of some entry of the list.
proof fn lemma_assoc_long_member(les: Seq<(String, [Vec<FxLongEvent>; 2])>, name: Seq<char>)
    requires
        assoc_long(les, name) is Some,
    ensures
        exists|i: int| 0 <= i < les.len() && (#[trigger] les[i]).1 == assoc_long(les, name)->Some_0,
    decreases les.len(),
{
    if les.len() > 0 && les[0].0@ == name {
        assert(les[0].1 == assoc_long(les, name)->Some_0);
    } else {
        lemma_assoc_long_member(les.drop_first(), name);
        let i = choose|i: int|
            0 <= i < les.drop_first().len() && (#[trigger] les.drop_first()[i]).1 == assoc_long(
                les.drop_first(),
                name,
            )->Some_0;
        assert(les[i + 1] == les.drop_first()[i]);
    }
}

/// One FX lane side's long events compile identically under two change
/// schedules that agree at every event's tick. The notes looked up come from
/// the chart's (shared) note data.
proof fn lemma_fx_events_causal(
    c1: Chart,
    c2: Chart,
    root: AudioEffect,
    ch1: Seq<ParamChange>,
    ch2: Seq<ParamChange>,
    side: int,
    evs: Seq<FxLongEvent>,
)
    requires
        c1.note == c2.note,
        forall|k: int|
            0 <= k < evs.len() ==> changes_agree_at(ch1, ch2, (#[trigger] evs[k]).y as int),
    ensures
        fx_event_intervals(c1, root, ch1, side, evs) == fx_event_intervals(
            c2,
            root,
            ch2,
            side,
            evs,
        ),
    decreases evs.len(),
{
    if evs.len() > 0 {
        assert(forall|k: int|
            0 <= k < evs.drop_last().len() ==> evs.drop_last()[k] == evs[k]);
        lemma_fx_events_causal(c1, c2, root, ch1, ch2, side, evs.drop_last());
        assert(evs[evs.len() - 1] == evs.last());
        lemma_resolve_causal(root, ch1, ch2, evs.last().y as int);
    }
}

/// The FX pass compiles identically under two banks that differ only in
/// parameter-change schedules agreeing at every FX long event's tick.
proof fn lemma_fx_defs_causal(c1: Chart, c2: Chart, b1: FxEffectBank, b2: FxEffectBank, i: int)
    requires
        c1.note == c2.note,
        b1.def == b2.def,
        b1.long_event == b2.long_event,
        forall|name: Seq<char>, t: int|
            #![trigger assoc_changes(b1.param_change@, name), fx_resolution_tick(b1, t)]
            fx_resolution_tick(b1, t) ==> changes_agree_at(
                assoc_changes(b1.param_change@, name),
                assoc_changes(b2.param_change@, name),
                t,
            ),
    ensures
        fx_def_intervals(c1, b1, i) == fx_def_intervals(c2, b2, i),
    decreases b1.def@.len() - i,
{
    if 0 <= i && i < b1.def@.len() {
        lemma_fx_defs_causal(c1, c2, b1, b2, i + 1);
        let name = b1.def@[i].0;
        let root = b1.def@[i].1;
        match assoc_long(b1.long_event@, name@) {
            None => {},
            Some(arr) => {
                let ch1 = assoc_changes(b1.param_change@, name@);
                let ch2 = assoc_changes(b2.param_change@, name@);
                lemma_assoc_long_member(b1.long_event@, name@);
                let i2 = choose|i2: int|
                    0 <= i2 < b1.long_event@.len() && (#[trigger] b1.long_event@[i2]).1 == arr;
                assert forall|side: int, k: int|
                    0 <= side < 2 && 0 <= k < arr@[side]@.len() implies changes_agree_at(
                    ch1,
                    ch2,
                    (#[trigger] arr@[side]@[k]).y as int,
                ) by {
                    assert(b1.long_event@[i2].1@[side]@[k] == arr@[side]@[k]);
                    assert(fx_resolution_tick(b1, arr@[side]@[k].y as int));
                }
                lemma_fx_events_causal(c1, c2, root, ch1, ch2, 0, arr@[0]@);
                lemma_fx_events_causal(c1, c2, root, ch1, ch2, 1, arr@[1]@);
            },
        }
    }
}

/// One laser lane side compiles identically under two banks that differ only
/// in parameter-change schedules agreeing at every laser section's start.
proof fn lemma_laser_side_causal(
    c1: Chart,
    c2: Chart,
    b1: LaserEffectBank,
    b2: LaserEffectBank,
    side: int,
    j: int,
)
    requires
        c1.note == c2.note,
        0 <= side < 2,
        b1.def == b2.def,
        b1.pulse_event == b2.pulse_event,
        forall|name: Seq<char>, t: int|
            #![trigger assoc_changes(b1.param_change@, name), laser_resolution_tick(c1, t)]
            laser_resolution_tick(c1, t) ==> changes_agree_at(
                assoc_changes(b1.param_change@, name),
                assoc_changes(b2.param_change@, name),
                t,
            ),
    ensures
        laser_side_intervals(c1, b1, side, j) == laser_side_intervals(c2, b2, side, j),
    decreases c1.note.laser@[side]@.len() - j,
{
    let secs = c1.note.laser@[side]@;
    if 0 <= j && j < secs.len() {
        lemma_laser_side_causal(c1, c2, b1, b2, side, j + 1);
        let sec = secs[j];
        match best_pulse(b1.pulse_event@, 0, sec.y as int, None) {
            None => {},
            Some(p) => {
                let name = b1.pulse_event@[p.0].0;
                match assoc_def(b1.def@, name@) {
                    None => {},
                    Some(root) => {
                        assert(laser_resolution_tick(c1, sec.y as int));
                        lemma_resolve_causal(
                            root,
                            assoc_changes(b1.param_change@, name@),
                            assoc_changes(b2.param_change@, name@),
                            sec.y as int,
                        );
                    },
                }
            },
        }
    }
}

/// Compilation of the effect timeline is causal: two charts with the same
/// notes, effect definitions, long events and pulse events, whose
/// parameter-change schedules agree on every change at or before each tick
/// the compiler resolves at (each FX long event's tick, each laser section's
/// start), compile to identical effect interval timelines. A change
/// scheduled after every point of use never influences the output.
pub proof fn lemma_effect_tracks_causal(c1: Chart, c2: Chart)
    requires
        c1.note == c2.note,
        c1.audio.audio_effect is Some <==> c2.audio.audio_effect is Some,
        (c1.audio.audio_effect is Some && c2.audio.audio_effect is Some) ==> ({
            let b1 = c1.audio.audio_effect->Some_0;
            let b2 = c2.audio.audio_effect->Some_0;
            &&& b1.fx.def == b2.fx.def
            &&& b1.fx.long_event == b2.fx.long_event
            &&& b1.laser.def == b2.laser.def
            &&& b1.laser.pulse_event == b2.laser.pulse_event
            &&& forall|name: Seq<char>, t: int|
                #![trigger assoc_changes(b1.fx.param_change@, name), fx_resolution_tick(b1.fx, t)]
                fx_resolution_tick(b1.fx, t) ==> changes_agree_at(
                    assoc_changes(b1.fx.param_change@, name),
                    assoc_changes(b2.fx.param_change@, name),
                    t,
                )
            &&& forall|name: Seq<char>, t: int|
                #![trigger
                    assoc_changes(b1.laser.param_change@, name),
                    laser_resolution_tick(c1, t)
                ]
                laser_resolution_tick(c1, t) ==> changes_agree_at(
                    assoc_changes(b1.laser.param_change@, name),
                    assoc_changes(b2.laser.param_change@, name),
                    t,
                )
        }),
    ensures
        effect_tracks_spec(c1) == effect_tracks_spec(c2),
{
    if c1.audio.audio_effect is Some {
        let b1 = c1.audio.audio_effect->Some_0;
        let b2 = c2.audio.audio_effect->Some_0;
        lemma_fx_defs_causal(c1, c2, b1.fx, b2.fx, 0);
        lemma_laser_side_causal(c1, c2, b1.laser, b2.laser, 0, 0);
        lemma_laser_side_causal(c1, c2, b1.laser, b2.laser, 1, 0);
        assert(effect_tracks_raw(c1) == effect_tracks_raw(c2));
    } else {
        assert(effect_tracks_raw(c1) =~= effect_tracks_raw(c2));
    }
}

} // verus!
