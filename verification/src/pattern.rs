use vstd::prelude::*;

verus! {

/// Steps per pattern (one bar of sixteenths).
pub const STEP_COUNT: usize = 16;

/// One step of one track.
#[derive(Clone, Copy, Debug, PartialEq, Eq, Structural)]
pub struct Step {
    /// The voice fires on this step.
    pub on: bool,
    /// The step is accented.
    pub accent: bool,
}

impl Step {
    /// Silent step.
    pub fn off() -> (s: Step)
        ensures
            s == (Step { on: false, accent: false }),
    {
        Step { on: false, accent: false }
    }

    /// Plain hit.
    pub fn hit() -> (s: Step)
        ensures
            s == (Step { on: true, accent: false }),
    {
        Step { on: true, accent: false }
    }

    /// Accented hit.
    pub fn accented() -> (s: Step)
        ensures
            s == (Step { on: true, accent: true }),
    {
        Step { on: true, accent: true }
    }
}

impl Default for Step {
    fn default() -> (s: Self)
        ensures
            s == (Step { on: false, accent: false }),
    {
        Step::off()
    }
}

/// Sixteen steps for one voice.
#[derive(Clone, Copy, Debug, PartialEq, Eq)]
pub struct Track {
    /// The steps.
    pub steps: [Step; STEP_COUNT],
}

impl View for Track {
    type V = Seq<Step>;

    open spec fn view(&self) -> Seq<Step> {
        self.steps@
    }
}

impl Default for Track {
    fn default() -> (t: Self)
        ensures
            forall|i: int| 0 <= i < STEP_COUNT ==> t@[i] == (Step { on: false, accent: false }),
    {
        Track { steps: [Step::off(); 16] }
    }
}

/// Error from parsing step notation.
#[derive(Clone, Copy, Debug, PartialEq, Eq, Structural)]
pub enum PatternParseError {
    /// The notation held this many step characters instead of [`STEP_COUNT`].
    WrongLength(usize),
    /// A character other than `x`, `X`, `-`, `.` or white space.
    BadChar(char),
}

/// The Unicode `White_Space` property (PropList.txt): the characters that
/// `char::is_whitespace` accepts.
pub open spec fn is_white_space(c: char) -> bool {
    let u = c as u32;
    ||| 0x09 <= u <= 0x0d
    ||| u == 0x20
    ||| u == 0x85
    ||| u == 0xa0
    ||| u == 0x1680
    ||| 0x2000 <= u <= 0x200a
    ||| u == 0x2028
    ||| u == 0x2029
    ||| u == 0x202f
    ||| u == 0x205f
    ||| u == 0x3000
}

/// Whether `c` has the Unicode `White_Space` property, as
/// `char::is_whitespace` decides it.
fn char_is_whitespace(c: char) -> (b: bool)
    ensures
        b == is_white_space(c),
{
    let u = c as u32;
    (0x09 <= u && u <= 0x0d) || u == 0x20 || u == 0x85 || u == 0xa0 || u == 0x1680 || (0x2000
        <= u && u <= 0x200a) || u == 0x2028 || u == 0x2029 || u == 0x202f || u == 0x205f || u
        == 0x3000
}

/// The characters of `s` that are not white space, in order.
pub open spec fn non_blank(s: Seq<char>) -> Seq<char>
    decreases s.len(),
{
    if s.len() == 0 {
        Seq::empty()
    } else if is_white_space(s.last()) {
        non_blank(s.drop_last())
    } else {
        non_blank(s.drop_last()).push(s.last())
    }
}

/// The step a notation character stands for.
pub open spec fn step_of_char(c: char) -> Option<Step> {
    if c == '-' || c == '.' {
        Some(Step { on: false, accent: false })
    } else if c == 'x' {
        Some(Step { on: true, accent: false })
    } else if c == 'X' {
        Some(Step { on: true, accent: true })
    } else {
        None
    }
}

/// The character that writes a step.
pub open spec fn char_of_step(s: Step) -> char {
    if !s.on {
        '-'
    } else if !s.accent {
        'x'
    } else {
        'X'
    }
}

/// `i` is the first position of `cs` that holds no step character.
pub open spec fn is_first_bad(cs: Seq<char>, i: int) -> bool {
    &&& 0 <= i < cs.len()
    &&& step_of_char(cs[i]) is None
    &&& forall|j: int| 0 <= j < i ==> (#[trigger] step_of_char(cs[j])) is Some
}

/// What parsing the notation `s` gives: the first character that is neither
/// white space nor a step character, else the wrong count of step
/// characters, else the sixteen steps they spell.
pub open spec fn spec_parse(s: Seq<char>) -> Result<Seq<Step>, PatternParseError> {
    let cs = non_blank(s);
    if exists|i: int| is_first_bad(cs, i) {
        Err(PatternParseError::BadChar(cs[choose|i: int| is_first_bad(cs, i)]))
    } else if cs.len() != STEP_COUNT {
        Err(PatternParseError::WrongLength(cs.len() as usize))
    } else {
        Ok(Seq::new(STEP_COUNT as nat, |i: int| step_of_char(cs[i])->0))
    }
}

/// The notation of the first `k` steps, a space before every fourth.
pub open spec fn notation_prefix(steps: Seq<Step>, k: nat) -> Seq<char>
    decreases k,
{
    if k == 0 {
        Seq::empty()
    } else {
        let before = notation_prefix(steps, (k - 1) as nat);
        let spaced = if k - 1 > 0 && (k - 1) % 4 == 0 {
            before.push(' ')
        } else {
            before
        };
        spaced.push(char_of_step(steps[k - 1]))
    }
}

/// The notation [`Track::notation`] writes.
pub open spec fn spec_notation(steps: Seq<Step>) -> Seq<char> {
    notation_prefix(steps, STEP_COUNT as nat)
}

/// The step a step's notation character reads back as: an off step loses
/// its accent flag.
pub open spec fn canonical(s: Step) -> Step {
    if s.on {
        s
    } else {
        Step { on: false, accent: false }
    }
}

/// `String::push`: appends one character.
#[verifier::external_body]
fn string_push(s: &mut String, c: char)
    ensures
        final(s)@ == old(s)@.push(c),
{
    s.push(c);
}

proof fn lemma_non_blank_len(s: Seq<char>)
    ensures
        non_blank(s).len() <= s.len(),
    decreases s.len(),
{
    if s.len() > 0 {
        lemma_non_blank_len(s.drop_last());
    }
}

proof fn lemma_non_blank_prefix(s: Seq<char>, m: int)
    requires
        0 <= m <= s.len(),
    ensures
        non_blank(s.take(m)).len() <= non_blank(s).len(),
        non_blank(s).take(non_blank(s.take(m)).len() as int) =~= non_blank(s.take(m)),
    decreases s.len() - m,
{
    if m < s.len() {
        let d = s.drop_last();
        assert(d.take(m) =~= s.take(m));
        lemma_non_blank_prefix(d, m);
        lemma_non_blank_len(d);
    } else {
        assert(s.take(m) =~= s);
    }
}

/// A first bad character found in a prefix of the notation is the first bad
/// character of the whole notation, and parsing reports it.
proof fn lemma_first_bad_of_prefix(s: Seq<char>, m: int, n: int)
    requires
        0 <= m <= s.len(),
        is_first_bad(non_blank(s.take(m)), n),
    ensures
        is_first_bad(non_blank(s), n),
        spec_parse(s) == Err::<Seq<Step>, PatternParseError>(
            PatternParseError::BadChar(non_blank(s.take(m))[n]),
        ),
{
    let cs = non_blank(s.take(m));
    let whole = non_blank(s);
    lemma_non_blank_prefix(s, m);
    assert(forall|j: int| 0 <= j < cs.len() ==> whole[j] == #[trigger] cs[j]) by {
        assert forall|j: int| 0 <= j < cs.len() implies whole[j] == #[trigger] cs[j] by {
            assert(whole.take(cs.len() as int)[j] == whole[j]);
        }
    }
    assert forall|j: int| 0 <= j < n implies (#[trigger] step_of_char(whole[j])) is Some by {
        assert(whole[j] == cs[j]);
        assert(step_of_char(cs[j]) is Some);
    }
    assert(whole[n] == cs[n]);
    assert(is_first_bad(whole, n));
    let i = choose|i: int| is_first_bad(whole, i);
    assert(i == n) by {
        if i < n {
            assert(step_of_char(whole[i]) is Some);
        } else if i > n {
            assert(step_of_char(whole[n]) is Some);
        }
    }
}

impl Track {
    /// Parses step notation: one character per step, `-` or `.` for off,
    /// `x` for a hit, `X` for an accented hit. White space is ignored so
    /// steps can be grouped (`"X--- x--- X--- x---"`).
    pub fn parse(notation: &str) -> (r: Result<Track, PatternParseError>)
        requires
            notation@.len() <= usize::MAX,
        ensures
            match (r, spec_parse(notation@)) {
                (Ok(t), Ok(steps)) => t@ == steps,
                (Err(e), Err(f)) => e == f,
                _ => false,
            },
    {
        let mut steps: [Step; STEP_COUNT] = [Step::off(); 16];
        let mut n: usize = 0;
        for c in it: notation.chars()
            invariant
                it.seq() == notation@,
                notation@.len() <= usize::MAX,
                n as nat == non_blank(notation@.take(it.index())).len(),
                forall|j: int|
                    0 <= j < n ==> (#[trigger] step_of_char(
                        non_blank(notation@.take(it.index()))[j],
                    )) is Some,
                forall|j: int|
                    0 <= j < n && j < STEP_COUNT ==> steps@[j] == step_of_char(
                        non_blank(notation@.take(it.index()))[j],
                    )->0,
        {
            let ghost k = it.index();
            let ghost before = notation@.take(k);
            assert(notation@.take(k + 1) =~= before.push(c));
            assert(notation@.take(k + 1).drop_last() =~= before);
            proof {
                lemma_non_blank_len(notation@.take(k + 1));
            }
            if !char_is_whitespace(c) {
                let step = match c {
                    '-' | '.' => Step::off(),
                    'x' => Step::hit(),
                    'X' => Step::accented(),
                    other => {
                        proof {
                            let cs = non_blank(notation@.take(k + 1));
                            assert(cs =~= non_blank(before).push(c));
                            assert(is_first_bad(cs, n as int));
                            lemma_first_bad_of_prefix(notation@, k + 1, n as int);
                        }
                        return Err(PatternParseError::BadChar(other));
                    },
                };
                if n < STEP_COUNT {
                    steps[n] = step;
                }
                n += 1;
            }
        }
        assert(notation@.take(notation@.len() as int) =~= notation@);
        if n != STEP_COUNT {
            return Err(PatternParseError::WrongLength(n));
        }
        let t = Track { steps };
        assert(t@ =~= Seq::new(STEP_COUNT as nat, |i: int| step_of_char(non_blank(notation@)[i])->0));
        Ok(t)
    }

    /// The notation [`Track::parse`] accepts, grouped in fours.
    pub fn notation(&self) -> (s: String)
        ensures
            s@ == spec_notation(self@),
            s@.len() == 19,
            forall|i: int| 0 <= i < STEP_COUNT ==> #[trigger] s@[i + i / 4] == char_of_step(self@[i]),
            s@[4] == ' ' && s@[9] == ' ' && s@[14] == ' ',
    {
        proof {
            lemma_notation_layout(self@);
        }
        let mut s = String::new();
        let mut i: usize = 0;
        while i < STEP_COUNT
            invariant
                i <= STEP_COUNT,
                s@ == notation_prefix(self@, i as nat),
            decreases STEP_COUNT - i,
        {
            if i > 0 && i % 4 == 0 {
                string_push(&mut s, ' ');
            }
            let step = self.steps[i];
            let c = match (step.on, step.accent) {
                (false, _) => '-',
                (true, false) => 'x',
                (true, true) => 'X',
            };
            string_push(&mut s, c);
            i += 1;
        }
        s
    }
}

/// Among ASCII characters, white space is exactly tab, line feed, vertical
/// tab, form feed, carriage return and space; every printable character
/// other than the space is not white space.
pub proof fn lemma_ascii_white_space(c: char)
    requires
        (c as u32) < 0x80,
    ensures
        is_white_space(c) <==> (c == '\t' || c == '\n' || c == '\u{b}' || c == '\u{c}' || c
            == '\r' || c == ' '),
        0x21 <= (c as u32) <= 0x7e ==> !is_white_space(c),
{
}

/// Every character kept by `non_blank` is a character of `p` that is not
/// white space.
proof fn lemma_non_blank_from(p: Seq<char>)
    ensures
        forall|j: int|
            #![trigger non_blank(p)[j]]
            0 <= j < non_blank(p).len() ==> exists|k: int|
                0 <= k < p.len() && p[k] == non_blank(p)[j] && !is_white_space(#[trigger] p[k]),
    decreases p.len(),
{
    if p.len() > 0 {
        let d = p.drop_last();
        lemma_non_blank_from(d);
        let nb = non_blank(p);
        assert forall|j: int| #![trigger nb[j]] 0 <= j < nb.len() implies exists|k: int|
            0 <= k < p.len() && p[k] == nb[j] && !is_white_space(#[trigger] p[k]) by {
            if j < non_blank(d).len() {
                assert(nb[j] == non_blank(d)[j]);
                let k = choose|k: int|
                    0 <= k < d.len() && d[k] == non_blank(d)[j] && !is_white_space(#[trigger] d[k]);
                assert(p[k] == d[k]);
            } else {
                assert(nb[j] == p.last());
                assert(p[p.len() - 1] == p.last());
            }
        }
    }
}

/// Parsing stops at the first character that is neither white space nor a
/// step character and reports it, whatever follows.
pub proof fn lemma_parse_reports_first_bad_char(s: Seq<char>, i: int)
    requires
        0 <= i < s.len(),
        step_of_char(s[i]) is None,
        !is_white_space(s[i]),
        forall|j: int| 0 <= j < i ==> (#[trigger] step_of_char(s[j])) is Some || is_white_space(s[j]),
    ensures
        spec_parse(s) == Err::<Seq<Step>, PatternParseError>(PatternParseError::BadChar(s[i])),
{
    let before = s.take(i);
    assert(s.take(i + 1) =~= before.push(s[i]));
    assert(s.take(i + 1).drop_last() =~= before);
    let cs = non_blank(s.take(i + 1));
    let nb = non_blank(before);
    assert(cs =~= nb.push(s[i]));
    lemma_non_blank_from(before);
    assert forall|j: int| 0 <= j < nb.len() implies (#[trigger] step_of_char(cs[j])) is Some by {
        assert(cs[j] == nb[j]);
        let k = choose|k: int|
            0 <= k < before.len() && before[k] == nb[j] && !is_white_space(#[trigger] before[k]);
        assert(before[k] == s[k]);
        assert(step_of_char(s[k]) is Some || is_white_space(s[k]));
    }
    assert(is_first_bad(cs, nb.len() as int));
    lemma_first_bad_of_prefix(s, i + 1, nb.len() as int);
}

/// A printable ASCII character other than the space and the step characters
/// `-`, `.`, `x` and `X`, reached before any other bad character, makes
/// parsing fail with that character.
pub proof fn lemma_parse_rejects_printable_ascii(s: Seq<char>, i: int)
    requires
        0 <= i < s.len(),
        0x21 <= (s[i] as u32) <= 0x7e,
        s[i] != '-' && s[i] != '.' && s[i] != 'x' && s[i] != 'X',
        forall|j: int| 0 <= j < i ==> (#[trigger] step_of_char(s[j])) is Some || is_white_space(s[j]),
    ensures
        spec_parse(s) == Err::<Seq<Step>, PatternParseError>(PatternParseError::BadChar(s[i])),
{
    lemma_ascii_white_space(s[i]);
    lemma_parse_reports_first_bad_char(s, i);
}

proof fn lemma_non_blank_insert_white(s: Seq<char>, i: int, c: char)
    requires
        0 <= i <= s.len(),
        is_white_space(c),
    ensures
        non_blank(s.insert(i, c)) == non_blank(s),
    decreases s.len(),
{
    let t = s.insert(i, c);
    if i == s.len() {
        assert(t.drop_last() =~= s);
    } else {
        assert(t.drop_last() =~= s.drop_last().insert(i, c));
        assert(t.last() == s.last());
        lemma_non_blank_insert_white(s.drop_last(), i, c);
    }
}

/// White space anywhere in the notation does not change what it parses to,
/// so steps can be grouped freely.
pub proof fn lemma_parse_ignores_white_space(s: Seq<char>, i: int, c: char)
    requires
        0 <= i <= s.len(),
        is_white_space(c),
    ensures
        spec_parse(s.insert(i, c)) == spec_parse(s),
{
    lemma_non_blank_insert_white(s, i, c);
}

proof fn lemma_notation_prefix_non_blank(t: Seq<Step>, k: nat)
    requires
        k <= t.len(),
    ensures
        non_blank(notation_prefix(t, k)) =~= Seq::new(k, |i: int| char_of_step(t[i])),
    decreases k,
{
    if k > 0 {
        lemma_notation_prefix_non_blank(t, (k - 1) as nat);
        let before = notation_prefix(t, (k - 1) as nat);
        let c = char_of_step(t[k - 1]);
        assert(!is_white_space(c));
        assert(is_white_space(' '));
        if k - 1 > 0 && (k - 1) % 4 == 0 {
            let sp = before.push(' ');
            assert(sp.drop_last() =~= before);
            assert(sp.push(c).drop_last() =~= sp);
            assert(non_blank(sp) == non_blank(before));
            assert(non_blank(sp.push(c)) == non_blank(sp).push(c));
        } else {
            assert(before.push(c).drop_last() =~= before);
            assert(non_blank(before.push(c)) == non_blank(before).push(c));
        }
    }
}

proof fn lemma_notation_prefix_positions(t: Seq<Step>, k: nat)
    requires
        1 <= k <= t.len(),
    ensures
        notation_prefix(t, k).len() == k + (k - 1) / 4,
        forall|i: int| 0 <= i < k ==> #[trigger] notation_prefix(t, k)[i + i / 4] == char_of_step(t[i]),
        forall|j: int| 0 <= j < notation_prefix(t, k).len() && j % 5 == 4 ==> #[trigger] notation_prefix(t, k)[j] == ' ',
    decreases k,
{
    let p = notation_prefix(t, k);
    if k == 1 {
        assert(notation_prefix(t, 0) =~= Seq::<char>::empty());
        assert(p =~= seq![char_of_step(t[0])]);
    } else {
        let km = (k - 1) as nat;
        lemma_notation_prefix_positions(t, km);
        let before = notation_prefix(t, km);
        let c = char_of_step(t[k - 1]);
        if km % 4 == 0 {
            assert(p =~= before.push(' ').push(c));
            assert forall|i: int| 0 <= i < k implies #[trigger] p[i + i / 4] == char_of_step(t[i]) by {
                if i < km {
                    assert(p[i + i / 4] == before[i + i / 4]);
                }
            }
            assert forall|j: int| 0 <= j < p.len() && j % 5 == 4 implies #[trigger] p[j] == ' ' by {
                if j < before.len() {
                    assert(p[j] == before[j]);
                }
            }
        } else {
            assert(p =~= before.push(c));
            assert forall|i: int| 0 <= i < k implies #[trigger] p[i + i / 4] == char_of_step(t[i]) by {
                if i < km {
                    assert(p[i + i / 4] == before[i + i / 4]);
                }
            }
            assert forall|j: int| 0 <= j < p.len() && j % 5 == 4 implies #[trigger] p[j] == ' ' by {
                if j < before.len() {
                    assert(p[j] == before[j]);
                }
            }
        }
    }
}

/// The notation of a track is nineteen characters: step `i` is written at
/// position `i + i / 4`, and positions 4, 9 and 14 hold the spaces that
/// group the steps in fours.
pub proof fn lemma_notation_layout(t: Seq<Step>)
    requires
        t.len() == STEP_COUNT,
    ensures
        spec_notation(t).len() == 19,
        forall|i: int| 0 <= i < STEP_COUNT ==> #[trigger] spec_notation(t)[i + i / 4] == char_of_step(t[i]),
        spec_notation(t)[4] == ' ',
        spec_notation(t)[9] == ' ',
        spec_notation(t)[14] == ' ',
{
    lemma_notation_prefix_positions(t, STEP_COUNT as nat);
    let n = spec_notation(t);
    assert(n[4] == ' ');
    assert(n[9] == ' ');
    assert(n[14] == ' ');
}

/// Parsing the notation of a track gives the track back, except that an off
/// step reads back without an accent flag: `parse(notation(t))` always
/// succeeds.
pub proof fn lemma_parse_notation(t: Seq<Step>)
    requires
        t.len() == STEP_COUNT,
    ensures
        spec_parse(spec_notation(t)) == Ok::<Seq<Step>, PatternParseError>(
            t.map_values(|s: Step| canonical(s)),
        ),
{
    lemma_notation_prefix_non_blank(t, STEP_COUNT as nat);
    let cs = non_blank(spec_notation(t));
    assert forall|i: int| 0 <= i < cs.len() implies (#[trigger] step_of_char(cs[i])) is Some by {
        assert(cs[i] == char_of_step(t[i]));
    }
    assert(!exists|i: int| is_first_bad(cs, i));
    assert(Seq::new(STEP_COUNT as nat, |i: int| step_of_char(cs[i])->0) =~= t.map_values(
        |s: Step| canonical(s),
    ));
}

} // verus!

verus! {

/// The decimal digit character for `d < 10`.
pub open spec fn digit_char(d: nat) -> char {
    (48 + d) as char
}

/// The decimal numeral of `n`, without leading zeros.
pub open spec fn decimal(n: nat) -> Seq<char>
    decreases n,
{
    if n < 10 {
        seq![digit_char(n)]
    } else {
        decimal(n / 10).push(digit_char(n % 10))
    }
}

/// What `{:?}` prints for a character: the character in single quotes,
/// escaped where it is not plain text.
pub uninterp spec fn char_debug_text(c: char) -> Seq<char>;

/// Appends the decimal numeral of `n` to `s`.
fn push_decimal(s: &mut String, n: usize)
    ensures
        final(s)@ == old(s)@ + decimal(n as nat),
    decreases n,
{
    if n >= 10 {
        push_decimal(s, n / 10);
    }
    let d: u8 = (n % 10) as u8;
    let c = (48u8 + d) as char;
    assert(c == digit_char((n % 10) as nat));
    string_push(s, c);
    assert(s@ =~= old(s)@ + decimal(n as nat));
}

/// `<char as Debug>::fmt` through `format!`. For a printable ASCII character
/// other than the quote and the backslash it is the character between
/// single quotes; escapes for other characters are not stated.
#[verifier::external_body]
fn char_debug(c: char) -> (s: String)
    ensures
        s@ == char_debug_text(c),
        (0x20 <= c as u32 <= 0x7e && c != '\'' && c != '\\') ==> s@ == seq!['\'', c, '\''],
{
    format!("{c:?}")
}

/// The message of a parse error.
pub open spec fn spec_message(e: PatternParseError) -> Seq<char> {
    match e {
        PatternParseError::WrongLength(n) => "expected 16 step characters, got "@ + decimal(
            n as nat,
        ),
        PatternParseError::BadChar(c) => "unexpected character "@ + char_debug_text(c)
            + " (use x, X, - or .)"@,
    }
}

impl PatternParseError {
    /// Human-readable description of the error.
    pub fn to_string(&self) -> (s: String)
        ensures
            s@ == spec_message(*self),
    {
        match self {
            PatternParseError::WrongLength(n) => {
                let mut s = String::from_str("expected 16 step characters, got ");
                push_decimal(&mut s, *n);
                s
            },
            PatternParseError::BadChar(c) => {
                let mut s = String::from_str("unexpected character ");
                let quoted = char_debug(*c);
                s.append(quoted.as_str());
                s.append(" (use x, X, - or .)");
                s
            },
        }
    }
}

} // verus!
