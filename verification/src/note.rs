use vstd::prelude::*;
use vstd::std_specs::ops::{AddSpecImpl, SubSpecImpl};
use vstd::string::StringExecFns;
use crate::interval::{pitch_class, Interval};
use crate::text::{
    chars_of, decimal_value, is_decimal, lemma_span_end, push_signed_decimal, read_decimal, scan,
    signed_decimal, slice_of, span_end, CharClass,
};

verus! {

/// An absolute pitch, in semitones above A0. Notes are ordered by pitch.
#[derive(Debug, Copy, Clone, PartialEq, Eq, PartialOrd, Ord, Hash, Structural)]
pub struct Note {
    pub semitones: isize,
}

/// Add an interval to this note.
impl core::ops::Add<Interval> for Note {
    type Output = Note;

    fn add(self, intv: Interval) -> (note: Note) {
        Note { semitones: self.semitones + intv.semitones }
    }
}

impl AddSpecImpl<Interval> for Note {
    open spec fn obeys_add_spec() -> bool {
        true
    }

    open spec fn add_req(self, intv: Interval) -> bool {
        isize::MIN <= self.semitones + intv.semitones <= isize::MAX
    }

    open spec fn add_spec(self, intv: Interval) -> Note {
        Note { semitones: (self.semitones + intv.semitones) as isize }
    }
}

/// Subtract an interval from this note.
impl core::ops::Sub<Interval> for Note {
    type Output = Note;

    fn sub(self, intv: Interval) -> (note: Note) {
        Note { semitones: self.semitones - intv.semitones }
    }
}

impl SubSpecImpl<Interval> for Note {
    open spec fn obeys_sub_spec() -> bool {
        true
    }

    open spec fn sub_req(self, intv: Interval) -> bool {
        isize::MIN <= self.semitones - intv.semitones <= isize::MAX
    }

    open spec fn sub_spec(self, intv: Interval) -> Note {
        Note { semitones: (self.semitones - intv.semitones) as isize }
    }
}

/// The name of a pitch class (`0..12` semitones above A), flats preferred.
pub open spec fn pitch_name(class: int) -> Seq<char> {
    if class == 0 {
        seq!['A']
    } else if class == 1 {
        seq!['B', 'b']
    } else if class == 2 {
        seq!['B']
    } else if class == 3 {
        seq!['C']
    } else if class == 4 {
        seq!['D', 'b']
    } else if class == 5 {
        seq!['D']
    } else if class == 6 {
        seq!['E', 'b']
    } else if class == 7 {
        seq!['E']
    } else if class == 8 {
        seq!['F']
    } else if class == 9 {
        seq!['G', 'b']
    } else if class == 10 {
        seq!['G']
    } else {
        seq!['A', 'b']
    }
}

/// The pitch class that a name stands for, where it is one of the twelve.
pub open spec fn named_pitch(name: Seq<char>) -> Option<int> {
    if exists|class: int| 0 <= class < 12 && pitch_name(class) == name {
        Some(choose|class: int| 0 <= class < 12 && pitch_name(class) == name)
    } else {
        None
    }
}

/// Why a text is not a note.
#[derive(Debug, Clone, PartialEq, Eq)]
pub enum NoteParseError {
    /// The letters at the start of the text are not a pitch name.
    InvalidName(String),
    /// What follows the name is not an octave number, or it is beyond the
    /// machine's integers.
    ParseIntError,
}

/// A `NoteParseError` as a mathematical value.
pub enum SpecNoteParseError {
    InvalidName(Seq<char>),
    ParseIntError,
}

impl View for NoteParseError {
    type V = SpecNoteParseError;

    open spec fn view(&self) -> SpecNoteParseError {
        match self {
            NoteParseError::InvalidName(name) => SpecNoteParseError::InvalidName(name@),
            NoteParseError::ParseIntError => SpecNoteParseError::ParseIntError,
        }
    }
}

/// The integer that a text writes: an optional sign, then decimal digits.
pub open spec fn signed_value(s: Seq<char>) -> Option<int> {
    if s.len() >= 1 && (s[0] == '-' || s[0] == '+') {
        let digits = s.subrange(1, s.len() as int);
        if !is_decimal(digits) {
            None
        } else if s[0] == '-' {
            Some(-(decimal_value(digits) as int))
        } else {
            Some(decimal_value(digits) as int)
        }
    } else if is_decimal(s) {
        Some(decimal_value(s) as int)
    } else {
        None
    }
}

/// The semitones of the pitch with a given class in a given octave. Octaves
/// begin at C, three semitones above A: A0 is 0 and C1 is 3.
pub open spec fn pitch_semitones(class: int, octave: int) -> int {
    (octave - (class + 9) / 12) * 12 + class
}

/// What a text reads as: the ASCII letters at its start name the pitch class,
/// and the rest is the octave number.
pub open spec fn parse_note(s: Seq<char>) -> Result<Note, SpecNoteParseError> {
    let name_end = span_end(s, CharClass::Letter, 0);
    let name = s.subrange(0, name_end);
    let octave = signed_value(s.subrange(name_end, s.len() as int));
    if named_pitch(name) is None {
        Err(SpecNoteParseError::InvalidName(name))
    } else if octave is None {
        Err(SpecNoteParseError::ParseIntError)
    } else {
        let semitones = pitch_semitones(named_pitch(name)->Some_0, octave->Some_0);
        if isize::MIN <= semitones <= isize::MAX {
            Ok(Note { semitones: semitones as isize })
        } else {
            Err(SpecNoteParseError::ParseIntError)
        }
    }
}

/// The view of a parse result, for comparison with `parse_note`.
pub open spec fn note_result_view(result: Result<Note, NoteParseError>) -> Result<
    Note,
    SpecNoteParseError,
> {
    match result {
        Ok(note) => Ok(note),
        Err(error) => Err(error@),
    }
}

/// Looks up the pitch class named by `s[..end]`.
fn pitch_by_name(s: &Vec<char>, end: usize) -> (class: Option<usize>)
    requires
        end <= s.len(),
    ensures
        match class {
            Some(c) => named_pitch(s@.subrange(0, end as int)) == Some(c as int) && c < 12,
            None => named_pitch(s@.subrange(0, end as int)) is None,
        },
{
    let ghost name = s@.subrange(0, end as int);
    let found: Option<usize> = if end == 1 {
        let letter = s[0];
        assert(name =~= seq![letter]);
        if letter == 'A' {
            Some(0)
        } else if letter == 'B' {
            Some(2)
        } else if letter == 'C' {
            Some(3)
        } else if letter == 'D' {
            Some(5)
        } else if letter == 'E' {
            Some(7)
        } else if letter == 'F' {
            Some(8)
        } else if letter == 'G' {
            Some(10)
        } else {
            None
        }
    } else if end == 2 && s[1] == 'b' {
        let letter = s[0];
        assert(name =~= seq![letter, 'b']);
        if letter == 'B' {
            Some(1)
        } else if letter == 'D' {
            Some(4)
        } else if letter == 'E' {
            Some(6)
        } else if letter == 'G' {
            Some(9)
        } else if letter == 'A' {
            Some(11)
        } else {
            None
        }
    } else {
        None
    };
    proof {
        match found {
            Some(c) => {
                assert(pitch_name(c as int) =~= name);
                assert forall|other: int| 0 <= other < 12 && pitch_name(other) == name implies other
                    == c by {
                    assert(pitch_name(other)[0] == name[0]);
                    assert(pitch_name(other).len() == name.len());
                }
            },
            None => {
                assert forall|other: int| 0 <= other < 12 implies pitch_name(other) != name by {
                    if pitch_name(other) == name {
                        assert(pitch_name(other).len() == name.len());
                        assert(pitch_name(other)[0] == name[0]);
                        if name.len() == 2 {
                            assert(pitch_name(other)[1] == name[1]);
                        }
                    }
                }
            },
        }
    }
    found
}

/// Reads the integer written by `s[from..]`.
fn read_signed(s: &Vec<char>, from: usize) -> (value: Option<(bool, Option<usize>)>)
    requires
        from <= s.len(),
    ensures
        match value {
            None => signed_value(s@.subrange(from as int, s.len() as int)) is None,
            Some((negative, magnitude)) => {
                let written = signed_value(s@.subrange(from as int, s.len() as int));
                &&& written is Some
                &&& negative == (written->Some_0 < 0)
                &&& match magnitude {
                    Some(m) => m == (if negative {
                        -written->Some_0
                    } else {
                        written->Some_0
                    }),
                    None => written->Some_0 > usize::MAX || written->Some_0 < -usize::MAX,
                }
            },
        },
{
    let ghost text = s@.subrange(from as int, s.len() as int);
    let signed = from < s.len() && (s[from] == '-' || s[from] == '+');
    let negative = from < s.len() && s[from] == '-';
    let start: usize = if signed {
        from + 1
    } else {
        from
    };
    let end = scan(s, CharClass::Digit, start);
    let ghost digits = s@.subrange(start as int, s.len() as int);
    proof {
        lemma_span_end(s@, CharClass::Digit, start as int);
        if signed {
            assert(text[0] == s@[from as int]);
            assert(text.subrange(1, text.len() as int) =~= digits);
        } else {
            assert(text =~= digits);
            if from < s.len() {
                assert(text[0] == s@[from as int]);
            }
        }
        if end == s.len() {
            assert(forall|i: int| 0 <= i < digits.len() ==> digits[i] == s@[start + i]);
        } else {
            assert(digits[end - start] == s@[end as int]);
        }
    }
    if end != s.len() || end == start {
        return None;
    }
    let magnitude = read_decimal(s, start, end);
    proof {
        if negative && magnitude is Some && magnitude->Some_0 == 0 {
            assert(signed_value(text)->Some_0 == 0);
        }
    }
    Some((negative && !(magnitude == Some(0usize)), magnitude))
}

impl Note {
    /// The note's name: its pitch class and the number of its octave.
    pub open spec fn name(self) -> Seq<char> {
        pitch_name((self.semitones as int) % 12) + signed_decimal((self.semitones + 9) / 12)
    }

    /// Renders the note's name, such as "C3" or "Bb0".
    pub fn to_string(&self) -> (text: String)
        ensures
            text@ == self.name(),
    {
        let class = pitch_class(self.semitones);
        proof {
            reveal_strlit("A");
            reveal_strlit("Bb");
            reveal_strlit("B");
            reveal_strlit("C");
            reveal_strlit("Db");
            reveal_strlit("D");
            reveal_strlit("Eb");
            reveal_strlit("E");
            reveal_strlit("F");
            reveal_strlit("Gb");
            reveal_strlit("G");
            reveal_strlit("Ab");
        }
        let name = if class == 0 {
            "A"
        } else if class == 1 {
            "Bb"
        } else if class == 2 {
            "B"
        } else if class == 3 {
            "C"
        } else if class == 4 {
            "Db"
        } else if class == 5 {
            "D"
        } else if class == 6 {
            "Eb"
        } else if class == 7 {
            "E"
        } else if class == 8 {
            "F"
        } else if class == 9 {
            "Gb"
        } else if class == 10 {
            "G"
        } else {
            "Ab"
        };
        assert(name@ =~= pitch_name((self.semitones as int) % 12));
        let mut text = String::from_str(name);
        let shifted: i128 = self.semitones as i128 + 9;
        let quotient: i128 = shifted / 12;
        let octave: i128 = if shifted % 12 < 0 {
            quotient - 1
        } else {
            quotient
        };
        push_signed_decimal(&mut text, octave as isize);
        text
    }

    /// Parses a note name such as "C3".
    pub fn from_str(s: &str) -> (result: Result<Note, NoteParseError>)
        ensures
            note_result_view(result) == parse_note(s@),
    {
        let chars = chars_of(s);
        let name_end = scan(&chars, CharClass::Letter, 0);
        match pitch_by_name(&chars, name_end) {
            None => Err(NoteParseError::InvalidName(slice_of(s, 0, name_end))),
            Some(class) => {
                match read_signed(&chars, name_end) {
                    None => Err(NoteParseError::ParseIntError),
                    Some((_, None)) => Err(NoteParseError::ParseIntError),
                    Some((negative, Some(magnitude))) => {
                        let octave: i128 = if negative {
                            -(magnitude as i128)
                        } else {
                            magnitude as i128
                        };
                        let semitones: i128 = (octave - (class as i128 + 9) / 12) * 12
                            + class as i128;
                        if semitones < isize::MIN as i128 || semitones > isize::MAX as i128 {
                            Err(NoteParseError::ParseIntError)
                        } else {
                            Ok(Note { semitones: semitones as isize })
                        }
                    },
                }
            },
        }
    }
}

/// Parses a note, e.g. "C3", for `str::parse`. What comes out is what `Note::from_str` states.
impl core::str::FromStr for Note {
    type Err = NoteParseError;

    fn from_str(s: &str) -> (result: Result<Note, NoteParseError>)
        ensures
            note_result_view(result) == parse_note(s@),
    {
        Note::from_str(s)
    }
}

} // verus!
