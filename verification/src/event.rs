use vstd::prelude::*;

use crate::voice::VoiceId;

verus! {

/// TR-style per-voice controls. Not every voice has every control.
#[derive(Clone, Copy, Debug, PartialEq, Eq, Structural)]
pub enum VoiceParam {
    /// Pitch.
    Tune,
    /// Ring-down time.
    Decay,
    /// Output level.
    Level,
    /// Snare noise amount (future voices).
    Snappy,
    /// Tonal balance (future voices).
    Tone,
}

/// Master-section controls.
#[derive(Clone, Copy, Debug, PartialEq, Eq, Structural)]
pub enum MasterParam {
    /// Linear output gain.
    OutputGain,
    /// Soft safety limiter on/off.
    Limiter,
}

/// Addressable parameters.
#[derive(Clone, Copy, Debug, PartialEq, Eq, Structural)]
pub enum ParamTarget {
    /// A per-voice control.
    Voice(VoiceId, VoiceParam),
    /// A master-section control.
    Master(MasterParam),
}

/// The control a parameter change lands on in the render path.
#[derive(Clone, Copy, Debug, PartialEq, Eq, Structural)]
pub enum ParamRoute {
    /// The kick's pitch.
    KickTune,
    /// The kick's ring-down time.
    KickDecay,
    /// The kick's output level.
    KickLevel,
    /// A control the addressed voice does not have; the change is ignored.
    Unused,
    /// The master output gain.
    OutputGain,
    /// The master soft limiter switch.
    Limiter,
}

/// Where a change of `target` is applied.
pub open spec fn spec_route(target: ParamTarget) -> ParamRoute {
    match target {
        ParamTarget::Voice(VoiceId::Kick, VoiceParam::Tune) => ParamRoute::KickTune,
        ParamTarget::Voice(VoiceId::Kick, VoiceParam::Decay) => ParamRoute::KickDecay,
        ParamTarget::Voice(VoiceId::Kick, VoiceParam::Level) => ParamRoute::KickLevel,
        ParamTarget::Voice(VoiceId::Kick, _) => ParamRoute::Unused,
        ParamTarget::Master(MasterParam::OutputGain) => ParamRoute::OutputGain,
        ParamTarget::Master(MasterParam::Limiter) => ParamRoute::Limiter,
    }
}

impl ParamTarget {
    /// Where a change of this parameter is applied: the kick takes tune,
    /// decay and level and ignores the controls it does not have; the
    /// master section takes gain and the limiter switch.
    pub fn route(self) -> (r: ParamRoute)
        ensures
            r == spec_route(self),
    {
        match self {
            ParamTarget::Voice(VoiceId::Kick, param) => match param {
                VoiceParam::Tune => ParamRoute::KickTune,
                VoiceParam::Decay => ParamRoute::KickDecay,
                VoiceParam::Level => ParamRoute::KickLevel,
                VoiceParam::Snappy | VoiceParam::Tone => ParamRoute::Unused,
            },
            ParamTarget::Master(MasterParam::OutputGain) => ParamRoute::OutputGain,
            ParamTarget::Master(MasterParam::Limiter) => ParamRoute::Limiter,
        }
    }
}

} // verus!
