use vstd::prelude::*;

verus! {

/// Number of voices a pattern can address.
pub const VOICE_COUNT: usize = 1;

/// The voices a pattern can address. The track index of a voice is its
/// position in [`VoiceId::all`].
#[derive(Clone, Copy, Debug, PartialEq, Eq, Structural, Hash)]
pub enum VoiceId {
    /// Bass drum.
    Kick,
}

impl VoiceId {
    /// Track index of a voice.
    pub open spec fn spec_index(self) -> nat {
        match self {
            VoiceId::Kick => 0,
        }
    }

    /// Short lowercase name used in pattern files.
    pub open spec fn spec_name(self) -> Seq<char> {
        match self {
            VoiceId::Kick => seq!['k', 'i', 'c', 'k'],
        }
    }

    /// Every voice, in track order.
    pub open spec fn spec_all() -> Seq<VoiceId> {
        seq![VoiceId::Kick]
    }

    /// Every voice, in track order.
    pub fn all() -> (voices: [VoiceId; VOICE_COUNT])
        ensures
            voices@ == Self::spec_all(),
    {
        let voices: [VoiceId; VOICE_COUNT] = [VoiceId::Kick];
        assert(voices@ =~= Self::spec_all());
        voices
    }

    /// Track index of this voice.
    pub fn index(self) -> (i: usize)
        ensures
            i == self.spec_index(),
            i < VOICE_COUNT,
    {
        match self {
            VoiceId::Kick => 0,
        }
    }

    /// Voice for a track index, if it exists.
    pub fn from_index(index: usize) -> (v: Option<VoiceId>)
        ensures
            match v {
                Some(voice) => voice.spec_index() == index,
                None => index >= VOICE_COUNT,
            },
    {
        if index == 0 {
            Some(VoiceId::Kick)
        } else {
            None
        }
    }

    /// Short lowercase name used in pattern files.
    pub fn name(self) -> (n: &'static str)
        ensures
            n@ == self.spec_name(),
    {
        match self {
            VoiceId::Kick => {
                let n: &'static str = "kick";
                proof {
                    reveal_strlit("kick");
                }
                n
            },
        }
    }
}

/// A voice's index takes it back to the same voice, and every index below
/// the voice count belongs to exactly one voice.
pub proof fn lemma_index_round_trip(v: VoiceId, w: VoiceId)
    ensures
        v.spec_index() < VOICE_COUNT,
        v.spec_index() == w.spec_index() ==> v == w,
        VoiceId::spec_all().len() == VOICE_COUNT,
        VoiceId::spec_all()[v.spec_index() as int] == v,
{
}

} // verus!
