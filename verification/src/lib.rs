//! Chart timeline compiler.
//!
//! Turns an immutable rhythm-game chart (note lanes, hold spans, laser curves,
//! audio-effect automation) into two derived, time-ordered artifacts:
//!
//! * a score tick timeline: the exhaustive, quantized list of judgeable events
//!   (chips, hold ticks, laser ticks, slams) consumed by a scoring engine, and
//! * an effect interval timeline: resolved audio-effect parameter snapshots,
//!   one per effected note or laser section, consumed by an audio mixer.
//!
//! Compilation is a pure, deterministic, one-shot transform: every public
//! operation carries a contract that pins its result down exactly, so two
//! compilations of the same chart always agree.

pub mod chart;
pub mod config;
pub mod effects;
pub mod play;
pub mod score_ticks;
pub mod song_provider;
