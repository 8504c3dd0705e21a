use player5::event::{MasterParam, ParamRoute, ParamTarget, VoiceParam};
use player5::pattern::{PatternParseError, Step, Track, STEP_COUNT};
use player5::voice::VoiceId;

#[test]
fn parses_notation() {
    let t = Track::parse("X--- x--- X-x- x--x").unwrap();
    assert_eq!(t.steps[0], Step::accented());
    assert_eq!(t.steps[1], Step::off());
    assert_eq!(t.steps[4], Step::hit());
    assert_eq!(t.steps[10], Step::hit());
    assert_eq!(t.steps[15], Step::hit());
    assert_eq!(t.notation(), "X--- x--- X-x- x--x");
    assert_eq!(Track::parse("................").unwrap(), Track::default());
}

#[test]
fn rejects_bad_notation() {
    assert_eq!(Track::parse("x---"), Err(PatternParseError::WrongLength(4)));
    assert_eq!(
        Track::parse("x---x---x---x---x"),
        Err(PatternParseError::WrongLength(17))
    );
    assert_eq!(
        Track::parse("x---x---x---x--?"),
        Err(PatternParseError::BadChar('?'))
    );
}

#[test]
fn bad_char_wins_over_length_and_is_the_first_one() {
    // The first offending character is reported even when the count is
    // already wrong, and later offenders are not looked at.
    assert_eq!(
        Track::parse("x---x---x---x---x---a?"),
        Err(PatternParseError::BadChar('a'))
    );
    assert_eq!(Track::parse("y"), Err(PatternParseError::BadChar('y')));
}

#[test]
fn any_unicode_white_space_is_ignored() {
    let spaced = Track::parse("x---\tx---\nx---\u{a0}x---\u{3000}").unwrap();
    let plain = Track::parse("x---x---x---x---").unwrap();
    assert_eq!(spaced, plain);
    assert_eq!(Track::parse(""), Err(PatternParseError::WrongLength(0)));
    assert_eq!(Track::parse("   "), Err(PatternParseError::WrongLength(0)));
}

#[test]
fn notation_round_trips_through_parse() {
    let mut t = Track::default();
    t.steps[3] = Step::hit();
    t.steps[8] = Step::accented();
    // An off step that carries an accent flag reads back as a plain off step.
    t.steps[9] = Step { on: false, accent: true };
    let text = t.notation();
    assert_eq!(text, "---x ---- X--- ----");
    let back = Track::parse(&text).unwrap();
    assert_eq!(back.steps[3], Step::hit());
    assert_eq!(back.steps[8], Step::accented());
    assert_eq!(back.steps[9], Step::off());
    for i in 0..STEP_COUNT {
        if i != 9 {
            assert_eq!(back.steps[i], t.steps[i]);
        }
    }
}

#[test]
fn dot_is_an_off_step() {
    let t = Track::parse("x.x. x.x. x.x. x.x.").unwrap();
    assert_eq!(t.notation(), "x-x- x-x- x-x- x-x-");
}

#[test]
fn error_messages() {
    assert_eq!(
        PatternParseError::WrongLength(4).to_string(),
        "expected 16 step characters, got 4"
    );
    assert_eq!(
        PatternParseError::BadChar('?').to_string(),
        "unexpected character '?' (use x, X, - or .)"
    );
}

#[test]
fn voice_index_name_and_lookup() {
    assert_eq!(VoiceId::Kick.index(), 0);
    assert_eq!(VoiceId::from_index(0), Some(VoiceId::Kick));
    assert_eq!(VoiceId::from_index(1), None);
    assert_eq!(VoiceId::Kick.name(), "kick");
    assert_eq!(VoiceId::all(), [VoiceId::Kick]);
}

#[test]
fn parameter_changes_land_on_their_controls() {
    let kick = |p| ParamTarget::Voice(VoiceId::Kick, p);
    assert_eq!(kick(VoiceParam::Tune).route(), ParamRoute::KickTune);
    assert_eq!(kick(VoiceParam::Decay).route(), ParamRoute::KickDecay);
    assert_eq!(kick(VoiceParam::Level).route(), ParamRoute::KickLevel);
    assert_eq!(kick(VoiceParam::Snappy).route(), ParamRoute::Unused);
    assert_eq!(kick(VoiceParam::Tone).route(), ParamRoute::Unused);
    assert_eq!(ParamTarget::Master(MasterParam::OutputGain).route(), ParamRoute::OutputGain);
    assert_eq!(ParamTarget::Master(MasterParam::Limiter).route(), ParamRoute::Limiter);
}

#[test]
fn wrong_length_messages_print_the_count_in_decimal() {
    assert_eq!(
        PatternParseError::WrongLength(0).to_string(),
        "expected 16 step characters, got 0"
    );
    assert_eq!(
        PatternParseError::WrongLength(10).to_string(),
        "expected 16 step characters, got 10"
    );
    assert_eq!(
        PatternParseError::WrongLength(1_203).to_string(),
        "expected 16 step characters, got 1203"
    );
}

#[test]
fn every_white_space_character_is_skipped() {
    let blanks = [
        '\t', '\n', '\u{b}', '\u{c}', '\r', ' ', '\u{85}', '\u{a0}', '\u{1680}', '\u{2000}',
        '\u{200a}', '\u{2028}', '\u{2029}', '\u{202f}', '\u{205f}', '\u{3000}',
    ];
    for b in blanks {
        let text: String = std::iter::repeat("x").take(16).collect::<Vec<_>>().join(&b.to_string());
        assert!(Track::parse(&text).is_ok(), "{b:?} should be skipped");
    }
    for c in ['\u{8}', '\u{200b}', '\u{180e}', '\u{feff}'] {
        let text = format!("x---x---x---x---{c}");
        assert_eq!(Track::parse(&text), Err(PatternParseError::BadChar(c)));
    }
}
