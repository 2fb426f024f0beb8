use vstd::prelude::*;
use vstd::string::{StrSliceExecFns, StringExecFns};
use crate::chord::{ChordSpec, ChordSpecView, Triad};
use crate::degree::{
    parse_degree, Degree, DegreeParseError, SpecDegreeParseError,
};
use crate::key::Mode;
use crate::text::{
    accidental_marks, chars_of, decimal, decimal_value, is_decimal, is_decimal_in, joined,
    net_accidentals, push_accidentals, push_decimal, read_accidentals,
    read_decimal, scan, slice_of, span_end, CharClass,
};

verus! {

/// Why a text is not a chord.
#[derive(Debug, Clone, PartialEq, Eq)]
pub enum ChordParseError {
    /// The text as a whole does not have the shape of a chord.
    InvalidChord(String),
    /// The numeral mixes upper and lower case, or is none of I to VII.
    InvalidNumeral(String),
    /// What stands between the root and the first section is not a triad
    /// symbol.
    InvalidTriadSymbol(String),
    /// The relative key is not a numeral of I to VII in one case.
    InvalidRelKey(String),
    /// An extension or the bass is not a degree.
    InvalidExtension(DegreeParseError),
    /// A count is not a number, or is beyond the machine's integers.
    ParseIntError,
}

/// A `ChordParseError` as a mathematical value.
pub enum SpecChordParseError {
    InvalidChord(Seq<char>),
    InvalidNumeral(Seq<char>),
    InvalidTriadSymbol(Seq<char>),
    InvalidRelKey(Seq<char>),
    InvalidExtension(SpecDegreeParseError),
    ParseIntError,
}

impl View for ChordParseError {
    type V = SpecChordParseError;

    open spec fn view(&self) -> SpecChordParseError {
        match self {
            ChordParseError::InvalidChord(text) => SpecChordParseError::InvalidChord(text@),
            ChordParseError::InvalidNumeral(text) => SpecChordParseError::InvalidNumeral(text@),
            ChordParseError::InvalidTriadSymbol(text) => SpecChordParseError::InvalidTriadSymbol(
                text@,
            ),
            ChordParseError::InvalidRelKey(text) => SpecChordParseError::InvalidRelKey(text@),
            ChordParseError::InvalidExtension(error) => SpecChordParseError::InvalidExtension(
                error@,
            ),
            ChordParseError::ParseIntError => SpecChordParseError::ParseIntError,
        }
    }
}

/// An optional section of a chord's notation: whether its opening character
/// is there, and where its body lies in the text.
#[derive(Debug, Copy, Clone, PartialEq, Eq, Structural)]
pub struct Section {
    pub present: bool,
    pub from: usize,
    pub to: usize,
}

/// The section that `opener` opens at position `at` of `s`, if it does: its
/// body runs up to the next opening character. An absent section is empty and
/// lies at `at`.
pub open spec fn section_at(s: Seq<char>, at: int, opener: char) -> Section {
    if 0 <= at < s.len() && s[at] == opener {
        Section {
            present: true,
            from: (at + 1) as usize,
            to: span_end(s, CharClass::Plain, at + 1) as usize,
        }
    } else {
        Section { present: false, from: at as usize, to: at as usize }
    }
}

/// Where the parts of a chord's notation lie in its text. The numeral is
/// `[0, numeral_end)`, the root's accidentals follow up to `marks_end`, the
/// triad symbol up to `head_end`; then come the sections, each optional, in
/// this order.
#[derive(Debug, Copy, Clone, PartialEq, Eq, Structural)]
pub struct ChordShape {
    pub numeral_end: usize,
    pub marks_end: usize,
    pub head_end: usize,
    pub extensions: Section,
    pub bass: Section,
    pub inversion: Section,
    pub shift_up: Section,
    pub shift_down: Section,
    pub rel_key: Section,
}

/// Lays a text out as a chord: the numeral is the longest run of the letters
/// I, V, i, v at its start, the accidentals the run of flats and sharps that
/// follows, the triad symbol what remains before the first opening character.
/// A shift down is looked for only where there is no shift up.
pub open spec fn chord_shape(s: Seq<char>) -> ChordShape {
    let numeral_end = span_end(s, CharClass::Numeral, 0);
    let marks_end = span_end(s, CharClass::Accidental, numeral_end);
    let head_end = span_end(s, CharClass::Plain, marks_end);
    let extensions = section_at(s, head_end, ':');
    let bass = section_at(s, extensions.to as int, '/');
    let inversion = section_at(s, bass.to as int, '%');
    let shift_up = section_at(s, inversion.to as int, '>');
    let shift_down = if shift_up.present {
        Section { present: false, from: shift_up.to, to: shift_up.to }
    } else {
        section_at(s, shift_up.to as int, '<')
    };
    let rel_key = section_at(s, shift_down.to as int, '~');
    ChordShape {
        numeral_end: numeral_end as usize,
        marks_end: marks_end as usize,
        head_end: head_end as usize,
        extensions,
        bass,
        inversion,
        shift_up,
        shift_down,
        rel_key,
    }
}

/// A text has the shape of a chord when it starts with a numeral and its
/// sections, in their order, take it up to its end.
pub open spec fn shape_fits(s: Seq<char>) -> bool {
    chord_shape(s).numeral_end > 0 && chord_shape(s).rel_key.to == s.len()
}

/// Whether a character is a lower-case ASCII letter.
pub open spec fn is_lower(c: char) -> bool {
    'a' <= c && c <= 'z'
}

/// Whether a character is an upper-case ASCII letter.
pub open spec fn is_upper(c: char) -> bool {
    'A' <= c && c <= 'Z'
}

/// The upper-case form of a numeral's letter; any other character is itself.
pub open spec fn upper(c: char) -> char {
    if c == 'i' {
        'I'
    } else if c == 'v' {
        'V'
    } else {
        c
    }
}

/// The mode that a numeral's case gives: minor where every character is a
/// lower-case letter, major where every character is an upper-case letter.
pub open spec fn numeral_mode(numeral: Seq<char>) -> Option<Mode> {
    if forall|i: int| 0 <= i < numeral.len() ==> is_lower(#[trigger] numeral[i]) {
        Some(Mode::Minor)
    } else if forall|i: int| 0 <= i < numeral.len() ==> is_upper(#[trigger] numeral[i]) {
        Some(Mode::Major)
    } else {
        None
    }
}

/// The seven numerals, by position `0..7`, in upper case.
pub open spec fn numeral_text(index: int) -> Seq<char> {
    if index == 0 {
        seq!['I']
    } else if index == 1 {
        seq!['I', 'I']
    } else if index == 2 {
        seq!['I', 'I', 'I']
    } else if index == 3 {
        seq!['I', 'V']
    } else if index == 4 {
        seq!['V']
    } else if index == 5 {
        seq!['V', 'I']
    } else {
        seq!['V', 'I', 'I']
    }
}

/// The position `0..7` of a numeral among the seven, whatever its case.
pub open spec fn numeral_index(numeral: Seq<char>) -> Option<usize> {
    let raised = Seq::new(numeral.len(), |i: int| upper(numeral[i]));
    if raised == numeral_text(0) {
        Some(0usize)
    } else if raised == numeral_text(1) {
        Some(1usize)
    } else if raised == numeral_text(2) {
        Some(2usize)
    } else if raised == numeral_text(3) {
        Some(3usize)
    } else if raised == numeral_text(4) {
        Some(4usize)
    } else if raised == numeral_text(5) {
        Some(5usize)
    } else if raised == numeral_text(6) {
        Some(6usize)
    } else {
        None
    }
}

/// The triad that a symbol stands for; no symbol stands for the triad of the
/// chord's mode.
pub open spec fn triad_of_symbol(symbol: Seq<char>) -> Option<Triad> {
    if symbol.len() == 0 {
        Some(Triad::Mode)
    } else if symbol == seq!['-'] {
        Some(Triad::Diminished)
    } else if symbol == seq!['+'] {
        Some(Triad::Augmented)
    } else if symbol == seq!['_'] {
        Some(Triad::Sus2)
    } else if symbol == seq!['^'] {
        Some(Triad::Sus4)
    } else if symbol == seq!['5'] {
        Some(Triad::Power)
    } else {
        None
    }
}

/// The degrees that a list of items parted by commas writes, read from
/// position `from`; the first item that is no degree fails the list.
pub open spec fn parse_degrees(s: Seq<char>, from: int) -> Result<Seq<Degree>, SpecDegreeParseError>
    decreases s.len() - from,
{
    let end = span_end(s, CharClass::Item, from);
    match parse_degree(s.subrange(from, end)) {
        Err(error) => Err(error),
        Ok(degree) => if 0 <= from <= end < s.len() {
            match parse_degrees(s, end + 1) {
                Err(error) => Err(error),
                Ok(rest) => Ok(seq![degree] + rest),
            }
        } else {
            Ok(seq![degree])
        },
    }
}

/// The body of a section, or the empty text for an absent one.
pub open spec fn body(s: Seq<char>, section: Section) -> Seq<char> {
    s.subrange(section.from as int, section.to as int)
}

/// The root's adjustment that a chord's text writes: the net of its
/// accidentals, and twelve semitones for each octave of its shift.
pub open spec fn written_adj(s: Seq<char>) -> int {
    let shape = chord_shape(s);
    net_accidentals(s.subrange(shape.numeral_end as int, shape.marks_end as int)) + (
    if shape.shift_up.present {
        12 * decimal_value(body(s, shape.shift_up))
    } else {
        0
    }) - (if shape.shift_down.present {
        12 * decimal_value(body(s, shape.shift_down))
    } else {
        0
    })
}

/// What a text reads as. The text is laid out by `chord_shape`; where it does
/// not fit, it is no chord. Then its parts are read, and the first that fails,
/// in this order, names the error: the numeral's case, the shift, the triad
/// symbol, the extensions, the numeral itself, the bass, the relative key, the
/// inversion.
pub open spec fn parse_chord(s: Seq<char>) -> Result<ChordSpecView, SpecChordParseError> {
    let shape = chord_shape(s);
    let numeral = s.subrange(0, shape.numeral_end as int);
    let symbol = s.subrange(shape.marks_end as int, shape.head_end as int);
    let extensions = if shape.extensions.present {
        parse_degrees(body(s, shape.extensions), 0)
    } else {
        Ok(Seq::empty())
    };
    let bass = parse_degree(body(s, shape.bass));
    let key = body(s, shape.rel_key);
    if !shape_fits(s) {
        Err(SpecChordParseError::InvalidChord(s))
    } else if numeral_mode(numeral) is None {
        Err(SpecChordParseError::InvalidNumeral(numeral))
    } else if (shape.shift_up.present && !is_decimal(body(s, shape.shift_up))) || (
    shape.shift_down.present && !is_decimal(body(s, shape.shift_down))) || written_adj(s)
        < isize::MIN || written_adj(s) > isize::MAX {
        Err(SpecChordParseError::ParseIntError)
    } else if triad_of_symbol(symbol) is None {
        Err(SpecChordParseError::InvalidTriadSymbol(symbol))
    } else if extensions is Err {
        Err(SpecChordParseError::InvalidExtension(extensions->Err_0))
    } else if numeral_index(numeral) is None {
        Err(SpecChordParseError::InvalidNumeral(numeral))
    } else if shape.bass.present && bass is Err {
        Err(SpecChordParseError::InvalidExtension(bass->Err_0))
    } else if shape.rel_key.present && (numeral_index(key) is None || numeral_mode(key) is None) {
        Err(SpecChordParseError::InvalidRelKey(key))
    } else if shape.inversion.present && (!is_decimal(body(s, shape.inversion)) || decimal_value(
        body(s, shape.inversion),
    ) > usize::MAX) {
        Err(SpecChordParseError::ParseIntError)
    } else {
        Ok(
            ChordSpecView {
                root: Degree {
                    degree: (numeral_index(numeral)->Some_0 + 1) as usize,
                    adj: written_adj(s) as isize,
                },
                mode: numeral_mode(numeral)->Some_0,
                triad: triad_of_symbol(symbol)->Some_0,
                extensions: extensions->Ok_0,
                bass_degree: if shape.bass.present {
                    Some(bass->Ok_0)
                } else {
                    None
                },
                inversion: if shape.inversion.present {
                    decimal_value(body(s, shape.inversion)) as usize
                } else {
                    0
                },
                rel_key: if shape.rel_key.present {
                    Some(((numeral_index(key)->Some_0 + 1) as usize, numeral_mode(key)->Some_0))
                } else {
                    None
                },
            },
        )
    }
}

/// The view of a parse result, for comparison with `parse_chord`.
pub open spec fn chord_result_view(result: Result<ChordSpec, ChordParseError>) -> Result<
    ChordSpecView,
    SpecChordParseError,
> {
    match result {
        Ok(spec) => Ok(spec@),
        Err(error) => Err(error@),
    }
}

fn raise(c: char) -> (raised: char)
    ensures
        raised == upper(c),
{
    if c == 'i' {
        'I'
    } else if c == 'v' {
        'V'
    } else {
        c
    }
}

/// Reads the section that `opener` opens at `at`.
fn section_of(s: &Vec<char>, at: usize, opener: char) -> (section: Section)
    requires
        at <= s.len(),
    ensures
        section == section_at(s@, at as int, opener),
        at <= section.from <= section.to <= s.len(),
{
    if at < s.len() && s[at] == opener {
        let to = scan(s, CharClass::Plain, at + 1);
        Section { present: true, from: at + 1, to }
    } else {
        Section { present: false, from: at, to: at }
    }
}

/// Lays a text out as a chord.
fn shape_of(s: &Vec<char>) -> (shape: ChordShape)
    ensures
        shape == chord_shape(s@),
        shape.numeral_end <= shape.marks_end <= shape.head_end <= shape.extensions.from,
        shape.extensions.from <= shape.extensions.to <= shape.bass.from,
        shape.bass.from <= shape.bass.to <= shape.inversion.from,
        shape.inversion.from <= shape.inversion.to <= shape.shift_up.from,
        shape.shift_up.from <= shape.shift_up.to <= shape.shift_down.from,
        shape.shift_down.from <= shape.shift_down.to <= shape.rel_key.from,
        shape.rel_key.from <= shape.rel_key.to <= s.len(),
{
    let numeral_end = scan(s, CharClass::Numeral, 0);
    let marks_end = scan(s, CharClass::Accidental, numeral_end);
    let head_end = scan(s, CharClass::Plain, marks_end);
    let extensions = section_of(s, head_end, ':');
    let bass = section_of(s, extensions.to, '/');
    let inversion = section_of(s, bass.to, '%');
    let shift_up = section_of(s, inversion.to, '>');
    let shift_down = if shift_up.present {
        Section { present: false, from: shift_up.to, to: shift_up.to }
    } else {
        section_of(s, shift_up.to, '<')
    };
    let rel_key = section_of(s, shift_down.to, '~');
    ChordShape {
        numeral_end,
        marks_end,
        head_end,
        extensions,
        bass,
        inversion,
        shift_up,
        shift_down,
        rel_key,
    }
}

/// Reads the mode from the case of `s[from..to]`.
fn mode_in(s: &Vec<char>, from: usize, to: usize) -> (mode: Option<Mode>)
    requires
        from <= to <= s.len(),
    ensures
        mode == numeral_mode(s@.subrange(from as int, to as int)),
{
    let ghost numeral = s@.subrange(from as int, to as int);
    let mut lower = true;
    let mut upper = true;
    let mut i: usize = from;
    while i < to
        invariant
            from <= i <= to <= s.len(),
            numeral == s@.subrange(from as int, to as int),
            lower == (forall|j: int| 0 <= j < i - from ==> is_lower(#[trigger] numeral[j])),
            upper == (forall|j: int| 0 <= j < i - from ==> is_upper(#[trigger] numeral[j])),
        decreases to - i,
    {
        let c = s[i];
        assert(numeral[i - from] == c);
        if !('a' <= c && c <= 'z') {
            lower = false;
        }
        if !('A' <= c && c <= 'Z') {
            upper = false;
        }
        i += 1;
    }
    if lower {
        Some(Mode::Minor)
    } else if upper {
        Some(Mode::Major)
    } else {
        None
    }
}

/// Looks `s[from..to]` up among the seven numerals.
fn index_in(s: &Vec<char>, from: usize, to: usize) -> (index: Option<usize>)
    requires
        from <= to <= s.len(),
    ensures
        index == numeral_index(s@.subrange(from as int, to as int)),
        index is Some ==> index->Some_0 < 7,
{
    let ghost numeral = s@.subrange(from as int, to as int);
    let ghost raised = Seq::new(numeral.len(), |i: int| upper(numeral[i]));
    let length = to - from;
    let index: Option<usize> = if length == 1 {
        let a = raise(s[from]);
        assert(raised =~= seq![a]);
        if a == 'I' {
            Some(0)
        } else if a == 'V' {
            Some(4)
        } else {
            None
        }
    } else if length == 2 {
        let a = raise(s[from]);
        let b = raise(s[from + 1]);
        assert(raised =~= seq![a, b]);
        if a == 'I' && b == 'I' {
            Some(1)
        } else if a == 'I' && b == 'V' {
            Some(3)
        } else if a == 'V' && b == 'I' {
            Some(5)
        } else {
            None
        }
    } else if length == 3 {
        let a = raise(s[from]);
        let b = raise(s[from + 1]);
        let c = raise(s[from + 2]);
        assert(raised =~= seq![a, b, c]);
        if a == 'I' && b == 'I' && c == 'I' {
            Some(2)
        } else if a == 'V' && b == 'I' && c == 'I' {
            Some(6)
        } else {
            None
        }
    } else {
        None
    };
    proof {
        assert forall|k: int| 0 <= k < 7 && raised == numeral_text(k) implies index == Some(
            k as usize,
        ) by {
            assert(raised.len() == numeral_text(k).len());
            assert(raised[0] == numeral_text(k)[0]);
            if raised.len() >= 2 {
                assert(raised[1] == numeral_text(k)[1]);
            }
            if raised.len() >= 3 {
                assert(raised[2] == numeral_text(k)[2]);
            }
        }
        if index is Some {
            assert(raised =~= numeral_text(index->Some_0 as int));
        }
    }
    index
}

/// Reads the triad that the symbol `s[from..to]` stands for.
fn triad_in(s: &Vec<char>, from: usize, to: usize) -> (triad: Option<Triad>)
    requires
        from <= to <= s.len(),
    ensures
        triad == triad_of_symbol(s@.subrange(from as int, to as int)),
{
    let ghost symbol = s@.subrange(from as int, to as int);
    if to == from {
        Some(Triad::Mode)
    } else if to - from == 1 {
        let c = s[from];
        assert(symbol =~= seq![c]);
        let triad = if c == '-' {
            Some(Triad::Diminished)
        } else if c == '+' {
            Some(Triad::Augmented)
        } else if c == '_' {
            Some(Triad::Sus2)
        } else if c == '^' {
            Some(Triad::Sus4)
        } else if c == '5' {
            Some(Triad::Power)
        } else {
            None
        };
        proof {
            assert(symbol[0] == c);
            assert(seq!['-'][0] == '-' && seq!['+'][0] == '+' && seq!['_'][0] == '_' && seq![
                '^',
            ][0] == '^' && seq!['5'][0] == '5');
        }
        triad
    } else {
        assert(symbol.len() >= 2);
        assert(seq!['-'].len() == 1 && seq!['+'].len() == 1 && seq!['_'].len() == 1 && seq![
            '^',
        ].len() == 1 && seq!['5'].len() == 1);
        None
    }
}

/// The result of reading the items before a position, followed by the result
/// of reading the rest.
pub open spec fn degrees_then(
    read: Seq<Degree>,
    rest: Result<Seq<Degree>, SpecDegreeParseError>,
) -> Result<Seq<Degree>, SpecDegreeParseError> {
    match rest {
        Ok(more) => Ok(read + more),
        Err(error) => Err(error),
    }
}

/// Reads a list of degrees parted by commas.
fn read_degrees(list: &str) -> (result: Result<Vec<Degree>, DegreeParseError>)
    ensures
        match result {
            Ok(degrees) => parse_degrees(list@, 0) == Ok::<Seq<Degree>, SpecDegreeParseError>(
                degrees@,
            ),
            Err(error) => parse_degrees(list@, 0) == Err::<Seq<Degree>, SpecDegreeParseError>(
                error@,
            ),
        },
        result is Ok ==> forall|i: int|
            0 <= i < result->Ok_0@.len() ==> (#[trigger] result->Ok_0@[i]).wf(),
{
    let chars = chars_of(list);
    let mut degrees: Vec<Degree> = Vec::new();
    let mut from: usize = 0;
    assert(degrees_then(degrees@, parse_degrees(list@, 0)) == parse_degrees(list@, 0)) by {
        match parse_degrees(list@, 0) {
            Ok(more) => {
                assert(degrees@ + more =~= more);
            },
            Err(_) => {},
        }
    }
    loop
        invariant
            chars@ == list@,
            from <= chars.len(),
            degrees_then(degrees@, parse_degrees(list@, from as int)) == parse_degrees(list@, 0),
            forall|i: int| 0 <= i < degrees@.len() ==> (#[trigger] degrees@[i]).wf(),
        decreases chars.len() - from,
    {
        let end = scan(&chars, CharClass::Item, from);
        let ghost before = degrees@;
        let ghost item = parse_degree(list@.subrange(from as int, end as int));
        match Degree::from_str(list.substring_char(from, end)) {
            Err(error) => {
                assert(item == Err::<Degree, SpecDegreeParseError>(error@));
                assert(parse_degrees(list@, from as int) == Err::<
                    Seq<Degree>,
                    SpecDegreeParseError,
                >(error@));
                return Err(error);
            },
            Ok(degree) => {
                assert(item == Ok::<Degree, SpecDegreeParseError>(degree));
                degrees.push(degree);
                if end < chars.len() {
                    proof {
                        match parse_degrees(list@, end + 1) {
                            Ok(more) => {
                                assert(parse_degrees(list@, from as int) == Ok::<
                                    Seq<Degree>,
                                    SpecDegreeParseError,
                                >(seq![degree] + more));
                                assert(before + (seq![degree] + more) =~= degrees@ + more);
                            },
                            Err(error) => {
                                assert(parse_degrees(list@, from as int) == Err::<
                                    Seq<Degree>,
                                    SpecDegreeParseError,
                                >(error));
                            },
                        }
                    }
                    from = end + 1;
                } else {
                    proof {
                        assert(parse_degrees(list@, from as int) == Ok::<
                            Seq<Degree>,
                            SpecDegreeParseError,
                        >(seq![degree]));
                        assert(before + seq![degree] =~= degrees@);
                    }
                    return Ok(degrees);
                }
            },
        }
    }
}

/// Look a numeral up among I to VII, whatever its case; the result counts
/// from 0.
pub fn numeral_to_index(numeral: &str) -> (index: Option<usize>)
    ensures
        index == numeral_index(numeral@),
        index is Some ==> index->Some_0 < 7,
{
    let chars = chars_of(numeral);
    assert(chars@.subrange(0, chars.len() as int) =~= numeral@);
    index_in(&chars, 0, chars.len())
}

/// Read the mode from a numeral's case: lower case is minor, upper case is
/// major, and a numeral of mixed case is rejected.
pub fn numeral_to_mode(numeral: &str) -> (result: Result<Mode, ChordParseError>)
    ensures
        match result {
            Ok(mode) => numeral_mode(numeral@) == Some(mode),
            Err(error) => numeral_mode(numeral@) is None && error@
                == SpecChordParseError::InvalidNumeral(numeral@),
        },
{
    let chars = chars_of(numeral);
    assert(chars@.subrange(0, chars.len() as int) =~= numeral@);
    match mode_in(&chars, 0, chars.len()) {
        Some(mode) => Ok(mode),
        None => Err(ChordParseError::InvalidNumeral(numeral.to_owned())),
    }
}

/// Reads the octaves of a shift section; an absent section shifts by none.
/// `None` stands for a count that is no number or beyond `usize`.
fn read_count(s: &Vec<char>, section: Section) -> (count: Option<usize>)
    requires
        section.from <= section.to <= s.len(),
    ensures
        match count {
            Some(n) => if section.present {
                is_decimal(body(s@, section)) && n == decimal_value(body(s@, section))
            } else {
                n == 0
            },
            None => section.present && (!is_decimal(body(s@, section)) || decimal_value(
                body(s@, section),
            ) > usize::MAX),
        },
{
    if !section.present {
        Some(0)
    } else if !is_decimal_in(s, section.from, section.to) {
        None
    } else {
        read_decimal(s, section.from, section.to)
    }
}

impl ChordSpec {
    /// Parses a chord from its notation, such as "III:7,9".
    #[verifier::rlimit(40)]
    pub fn from_str(s: &str) -> (result: Result<ChordSpec, ChordParseError>)
        ensures
            chord_result_view(result) == parse_chord(s@),
            result is Ok ==> result->Ok_0.wf(),
    {
        let chars = chars_of(s);
        let shape = shape_of(&chars);
        if shape.numeral_end == 0 || shape.rel_key.to != chars.len() {
            return Err(ChordParseError::InvalidChord(s.to_owned()));
        }
        let mode = match mode_in(&chars, 0, shape.numeral_end) {
            Some(mode) => mode,
            None => {
                return Err(ChordParseError::InvalidNumeral(slice_of(s, 0, shape.numeral_end)));
            },
        };
        let marks = read_accidentals(&chars, shape.numeral_end, shape.marks_end);
        let up = read_count(&chars, shape.shift_up);
        let down = read_count(&chars, shape.shift_down);
        let adj: isize = match (up, down) {
            (Some(up), Some(down)) => {
                let wide: i128 = marks + 12 * (up as i128) - 12 * (down as i128);
                if wide < isize::MIN as i128 || wide > isize::MAX as i128 {
                    return Err(ChordParseError::ParseIntError);
                }
                wide as isize
            },
            _ => {
                return Err(ChordParseError::ParseIntError);
            },
        };
        let triad = match triad_in(&chars, shape.marks_end, shape.head_end) {
            Some(triad) => triad,
            None => {
                return Err(
                    ChordParseError::InvalidTriadSymbol(
                        slice_of(s, shape.marks_end, shape.head_end),
                    ),
                );
            },
        };
        let extensions: Vec<Degree> = if shape.extensions.present {
            match read_degrees(s.substring_char(shape.extensions.from, shape.extensions.to)) {
                Ok(degrees) => degrees,
                Err(error) => {
                    return Err(ChordParseError::InvalidExtension(error));
                },
            }
        } else {
            Vec::new()
        };
        let index = match index_in(&chars, 0, shape.numeral_end) {
            Some(index) => index,
            None => {
                return Err(ChordParseError::InvalidNumeral(slice_of(s, 0, shape.numeral_end)));
            },
        };
        let bass_degree: Option<Degree> = if shape.bass.present {
            match Degree::from_str(s.substring_char(shape.bass.from, shape.bass.to)) {
                Ok(degree) => Some(degree),
                Err(error) => {
                    return Err(ChordParseError::InvalidExtension(error));
                },
            }
        } else {
            None
        };
        let rel_key: Option<(usize, Mode)> = if shape.rel_key.present {
            let key_index = index_in(&chars, shape.rel_key.from, shape.rel_key.to);
            let key_mode = mode_in(&chars, shape.rel_key.from, shape.rel_key.to);
            match (key_index, key_mode) {
                (Some(key_index), Some(key_mode)) => Some((key_index + 1, key_mode)),
                _ => {
                    return Err(
                        ChordParseError::InvalidRelKey(
                            slice_of(s, shape.rel_key.from, shape.rel_key.to),
                        ),
                    );
                },
            }
        } else {
            None
        };
        let inversion: usize = if shape.inversion.present {
            match read_count(&chars, shape.inversion) {
                Some(count) => count,
                None => {
                    return Err(ChordParseError::ParseIntError);
                },
            }
        } else {
            0
        };
        Ok(
            ChordSpec {
                root: Degree { degree: index + 1, adj },
                mode,
                triad,
                extensions,
                bass_degree,
                inversion,
                rel_key,
            },
        )
    }
}

/// The seven numerals, by position `0..7`, in lower case.
pub open spec fn small_numeral_text(index: int) -> Seq<char> {
    if index == 0 {
        seq!['i']
    } else if index == 1 {
        seq!['i', 'i']
    } else if index == 2 {
        seq!['i', 'i', 'i']
    } else if index == 3 {
        seq!['i', 'v']
    } else if index == 4 {
        seq!['v']
    } else if index == 5 {
        seq!['v', 'i']
    } else {
        seq!['v', 'i', 'i']
    }
}

/// The numeral of a scale position; positions above 7 wrap.
pub open spec fn numeral_of(degree: int, small: bool) -> Seq<char> {
    if small {
        small_numeral_text((degree - 1) % 7)
    } else {
        numeral_text((degree - 1) % 7)
    }
}

/// The symbol that writes a triad; the triad of the mode has none.
pub open spec fn triad_symbol(triad: Triad) -> Seq<char> {
    match triad {
        Triad::Mode => Seq::empty(),
        Triad::Diminished => seq!['-'],
        Triad::Augmented => seq!['+'],
        Triad::Sus2 => seq!['_'],
        Triad::Sus4 => seq!['^'],
        Triad::Power => seq!['5'],
    }
}

/// The notations of a list of degrees.
pub open spec fn degree_texts(degrees: Seq<Degree>) -> Seq<Seq<char>> {
    Seq::new(degrees.len(), |i: int| degrees[i].text())
}

impl ChordSpecView {
    /// The octaves by which the root's adjustment shifts the chord.
    pub open spec fn octaves(self) -> int {
        (if self.root.adj < 0 {
            -self.root.adj
        } else {
            self.root.adj as int
        }) / 12
    }

    /// What is left of the root's adjustment beside whole octaves, with the
    /// adjustment's sign.
    pub open spec fn chromatic(self) -> int {
        if self.root.adj < 0 {
            -((-self.root.adj) % 12)
        } else {
            (self.root.adj as int) % 12
        }
    }

    /// The root: its numeral, in lower case for a minor or diminished chord,
    /// its accidentals, and the triad's symbol.
    pub open spec fn head_text(self) -> Seq<char> {
        numeral_of(
            self.root.degree as int,
            self.mode == Mode::Minor || self.triad == Triad::Diminished,
        ) + accidental_marks(self.chromatic()) + triad_symbol(self.triad)
    }

    /// The extensions after a colon, parted by commas; nothing where there
    /// are none.
    pub open spec fn extensions_text(self) -> Seq<char> {
        if self.extensions.len() > 0 {
            seq![':'] + joined(degree_texts(self.extensions), ',')
        } else {
            Seq::empty()
        }
    }

    /// The bass after a slash.
    pub open spec fn bass_text(self) -> Seq<char> {
        match self.bass_degree {
            Some(bass) => seq!['/'] + bass.text(),
            None => Seq::empty(),
        }
    }

    /// The inversion count after a percent sign, unless it is zero.
    pub open spec fn inversion_text(self) -> Seq<char> {
        if self.inversion > 0 {
            seq!['%'] + decimal(self.inversion as nat)
        } else {
            Seq::empty()
        }
    }

    /// The octave shift: the count after `>` for a shift up and after `<`
    /// for a shift down, unless it is zero.
    pub open spec fn shift_text(self) -> Seq<char> {
        if self.octaves() == 0 {
            Seq::empty()
        } else if self.root.adj < 0 {
            seq!['<'] + decimal(self.octaves() as nat)
        } else {
            seq!['>'] + decimal(self.octaves() as nat)
        }
    }

    /// The relative key after a tilde: its numeral, in lower case for minor.
    pub open spec fn rel_key_text(self) -> Seq<char> {
        match self.rel_key {
            Some((degree, mode)) => seq!['~'] + numeral_of(degree as int, mode == Mode::Minor),
            None => Seq::empty(),
        }
    }

    /// The chord's notation.
    pub open spec fn text(self) -> Seq<char> {
        self.head_text() + self.extensions_text() + self.bass_text() + self.inversion_text()
            + self.shift_text() + self.rel_key_text()
    }
}

/// The literal that writes the numeral of a scale position.
pub(crate) fn numeral_str(degree: usize, small: bool) -> (text: &'static str)
    requires
        degree >= 1,
    ensures
        text@ == numeral_of(degree as int, small),
{
    let index = (degree - 1) % 7;
    proof {
        reveal_strlit("I");
        reveal_strlit("II");
        reveal_strlit("III");
        reveal_strlit("IV");
        reveal_strlit("V");
        reveal_strlit("VI");
        reveal_strlit("VII");
        reveal_strlit("i");
        reveal_strlit("ii");
        reveal_strlit("iii");
        reveal_strlit("iv");
        reveal_strlit("v");
        reveal_strlit("vi");
        reveal_strlit("vii");
    }
    let text = if small {
        if index == 0 {
            "i"
        } else if index == 1 {
            "ii"
        } else if index == 2 {
            "iii"
        } else if index == 3 {
            "iv"
        } else if index == 4 {
            "v"
        } else if index == 5 {
            "vi"
        } else {
            "vii"
        }
    } else {
        if index == 0 {
            "I"
        } else if index == 1 {
            "II"
        } else if index == 2 {
            "III"
        } else if index == 3 {
            "IV"
        } else if index == 4 {
            "V"
        } else if index == 5 {
            "VI"
        } else {
            "VII"
        }
    };
    assert(text@ =~= numeral_of(degree as int, small));
    text
}

/// The literal that writes a triad.
fn triad_str(triad: Triad) -> (text: &'static str)
    ensures
        text@ == triad_symbol(triad),
{
    proof {
        reveal_strlit("");
        reveal_strlit("-");
        reveal_strlit("+");
        reveal_strlit("_");
        reveal_strlit("^");
        reveal_strlit("5");
    }
    let text = match triad {
        Triad::Mode => "",
        Triad::Diminished => "-",
        Triad::Augmented => "+",
        Triad::Sus2 => "_",
        Triad::Sus4 => "^",
        Triad::Power => "5",
    };
    assert(text@ =~= triad_symbol(triad));
    text
}

/// Appends the notation of a degree.
fn push_degree(out: &mut String, degree: &Degree)
    ensures
        final(out)@ == old(out)@ + degree.text(),
{
    push_accidentals(out, degree.adj);
    push_decimal(out, degree.degree);
    assert(out@ =~= old(out)@ + degree.text());
}

/// Appends the notations of a list of degrees, parted by commas.
fn push_degrees(out: &mut String, degrees: &Vec<Degree>)
    requires
        degrees.len() > 0,
    ensures
        final(out)@ == old(out)@ + joined(degree_texts(degrees@), ','),
{
    let ghost texts = degree_texts(degrees@);
    push_degree(out, &degrees[0]);
    assert(joined(texts.take(1), ',') == degrees@[0].text()) by {
        assert(texts.take(1)[0] == texts[0]);
    }
    let mut i: usize = 1;
    while i < degrees.len()
        invariant
            1 <= i <= degrees.len(),
            texts == degree_texts(degrees@),
            out@ == old(out)@ + joined(texts.take(i as int), ','),
        decreases degrees.len() - i,
    {
        let ghost before = out@;
        proof {
            reveal_strlit(",");
        }
        out.append(",");
        assert(out@ =~= before + seq![',']);
        push_degree(out, &degrees[i]);
        proof {
            let grown = texts.take(i + 1);
            assert(grown.drop_last() =~= texts.take(i as int));
            assert(grown.last() == degrees@[i as int].text());
            assert(joined(grown, ',') == joined(texts.take(i as int), ',') + seq![','] + degrees@[i as int].text());
            assert(out@ =~= old(out)@ + joined(grown, ','));
        }
        i += 1;
    }
    assert(texts.take(degrees.len() as int) =~= texts);
}

impl ChordSpec {
    /// The chord's notation.
    pub open spec fn text(&self) -> Seq<char> {
        self@.text()
    }

    fn push_head(&self, out: &mut String)
        requires
            self.wf(),
        ensures
            final(out)@ == old(out)@ + self@.head_text(),
    {
        let small = match (self.mode, self.triad) {
            (Mode::Minor, _) => true,
            (_, Triad::Diminished) => true,
            _ => false,
        };
        out.append(numeral_str(self.root.degree, small));
        let magnitude: usize = if self.root.adj < 0 {
            (-(self.root.adj as i128)) as usize
        } else {
            self.root.adj as usize
        };
        let rest = (magnitude % 12) as isize;
        push_accidentals(
            out,
            if self.root.adj < 0 {
                -rest
            } else {
                rest
            },
        );
        out.append(triad_str(self.triad));
        assert(out@ =~= old(out)@ + self@.head_text());
    }

    fn push_extensions(&self, out: &mut String)
        ensures
            final(out)@ == old(out)@ + self@.extensions_text(),
    {
        if self.extensions.len() > 0 {
            proof {
                reveal_strlit(":");
            }
            out.append(":");
            assert(out@ =~= old(out)@ + seq![':']);
            push_degrees(out, &self.extensions);
            assert(out@ =~= old(out)@ + self@.extensions_text());
        } else {
            assert(out@ =~= old(out)@ + self@.extensions_text());
        }
    }

    fn push_bass(&self, out: &mut String)
        ensures
            final(out)@ == old(out)@ + self@.bass_text(),
    {
        match &self.bass_degree {
            Some(bass) => {
                proof {
                    reveal_strlit("/");
                }
                out.append("/");
                assert(out@ =~= old(out)@ + seq!['/']);
                push_degree(out, bass);
                assert(out@ =~= old(out)@ + self@.bass_text());
            },
            None => {
                assert(out@ =~= old(out)@ + self@.bass_text());
            },
        }
    }

    fn push_inversion(&self, out: &mut String)
        ensures
            final(out)@ == old(out)@ + self@.inversion_text(),
    {
        if self.inversion > 0 {
            proof {
                reveal_strlit("%");
            }
            out.append("%");
            assert(out@ =~= old(out)@ + seq!['%']);
            push_decimal(out, self.inversion);
            assert(out@ =~= old(out)@ + self@.inversion_text());
        } else {
            assert(out@ =~= old(out)@ + self@.inversion_text());
        }
    }

    fn push_shift(&self, out: &mut String)
        ensures
            final(out)@ == old(out)@ + self@.shift_text(),
    {
        let magnitude: usize = if self.root.adj < 0 {
            (-(self.root.adj as i128)) as usize
        } else {
            self.root.adj as usize
        };
        let octaves = magnitude / 12;
        if octaves != 0 {
            proof {
                reveal_strlit("<");
                reveal_strlit(">");
            }
            if self.root.adj < 0 {
                out.append("<");
                assert(out@ =~= old(out)@ + seq!['<']);
            } else {
                out.append(">");
                assert(out@ =~= old(out)@ + seq!['>']);
            }
            push_decimal(out, octaves);
            assert(out@ =~= old(out)@ + self@.shift_text());
        } else {
            assert(out@ =~= old(out)@ + self@.shift_text());
        }
    }

    fn push_rel_key(&self, out: &mut String)
        requires
            self.wf(),
        ensures
            final(out)@ == old(out)@ + self@.rel_key_text(),
    {
        match self.rel_key {
            Some((degree, mode)) => {
                proof {
                    reveal_strlit("~");
                }
                out.append("~");
                assert(out@ =~= old(out)@ + seq!['~']);
                let small = match mode {
                    Mode::Minor => true,
                    Mode::Major => false,
                };
                out.append(numeral_str(degree, small));
                assert(out@ =~= old(out)@ + self@.rel_key_text());
            },
            None => {
                assert(out@ =~= old(out)@ + self@.rel_key_text());
            },
        }
    }

    /// Renders the chord in the notation that `from_str` reads.
    pub fn to_string(&self) -> (text: String)
        requires
            self.wf(),
        ensures
            text@ == self@.text(),
    {
        let mut text = String::new();
        self.push_head(&mut text);
        self.push_extensions(&mut text);
        self.push_bass(&mut text);
        self.push_inversion(&mut text);
        self.push_shift(&mut text);
        self.push_rel_key(&mut text);
        assert(text@ =~= self@.text());
        text
    }
}

/// Parses a chord, e.g. "III:7,9", for `str::parse`. What comes out is what `ChordSpec::from_str` states.
impl core::str::FromStr for ChordSpec {
    type Err = ChordParseError;

    fn from_str(s: &str) -> (result: Result<ChordSpec, ChordParseError>)
        ensures
            chord_result_view(result) == parse_chord(s@),
            result is Ok ==> result->Ok_0.wf(),
    {
        ChordSpec::from_str(s)
    }
}

} // verus!
