use vstd::prelude::*;
use crate::key::{scale_semitones, scale_step, Mode};
use crate::text::{
    accidental_marks, chars_of, decimal, decimal_value, is_decimal, lemma_span_end,
    net_accidentals, push_accidentals, push_decimal, read_accidentals, read_decimal, scan,
    span_end, CharClass,
};

verus! {

/// A 1-indexed position in a seven-note scale with a chromatic adjustment in
/// semitones; "b7" is degree 7 lowered by one.
#[derive(Debug, Copy, Clone, PartialEq, Eq, Structural)]
pub struct Degree {
    pub degree: usize,
    pub adj: isize,
}

impl Degree {
    /// Scale positions count from 1.
    pub open spec fn wf(self) -> bool {
        self.degree >= 1
    }

    /// Semitones from the tonic to this degree in the given mode. The octave
    /// wraps every seven degrees: degree 8 is degree 1 an octave up.
    pub open spec fn semitones(self, mode: Mode) -> int {
        scale_step(mode, (self.degree - 1) % 7) + 12 * ((self.degree - 1) / 7) + self.adj
    }

    /// The same as `to_interval`, in a width that always holds the result.
    pub fn semitones_wide(&self, mode: &Mode) -> (semitones: i128)
        requires
            self.wf(),
        ensures
            semitones == self.semitones(*mode),
    {
        let zero_based: usize = self.degree - 1;
        let step = scale_semitones(*mode, zero_based % 7);
        let octaves: usize = zero_based / 7;
        step as i128 + 12 * (octaves as i128) + self.adj as i128
    }

    /// Semitones from the tonic to this degree in the given mode.
    pub fn to_interval(&self, mode: &Mode) -> (semitones: isize)
        requires
            self.wf(),
            isize::MIN <= self.semitones(*mode) <= isize::MAX,
        ensures
            semitones == self.semitones(*mode),
    {
        self.semitones_wide(mode) as isize
    }
}

/// Why a text is not a degree.
#[derive(Debug, Clone, PartialEq, Eq)]
pub enum DegreeParseError {
    /// The text is not a run of accidentals followed by the digits of a
    /// positive number.
    InvalidDegree(String),
    /// A number in the text is beyond the machine's integers.
    ParseIntError,
}

/// A `DegreeParseError` as a mathematical value.
pub enum SpecDegreeParseError {
    InvalidDegree(Seq<char>),
    ParseIntError,
}

impl View for DegreeParseError {
    type V = SpecDegreeParseError;

    open spec fn view(&self) -> SpecDegreeParseError {
        match self {
            DegreeParseError::InvalidDegree(text) => SpecDegreeParseError::InvalidDegree(text@),
            DegreeParseError::ParseIntError => SpecDegreeParseError::ParseIntError,
        }
    }
}

/// What a text reads as: accidentals, whose net count is the adjustment, then
/// the decimal digits of the scale position, which is at least 1. A text of
/// another shape, or position 0, is no degree.
pub open spec fn parse_degree(s: Seq<char>) -> Result<Degree, SpecDegreeParseError> {
    let marks_end = span_end(s, CharClass::Accidental, 0);
    let digits = s.subrange(marks_end, s.len() as int);
    let adj = net_accidentals(s.subrange(0, marks_end));
    if !is_decimal(digits) {
        Err(SpecDegreeParseError::InvalidDegree(s))
    } else if decimal_value(digits) > usize::MAX || adj < isize::MIN || adj > isize::MAX {
        Err(SpecDegreeParseError::ParseIntError)
    } else if decimal_value(digits) == 0 {
        Err(SpecDegreeParseError::InvalidDegree(s))
    } else {
        Ok(Degree { degree: decimal_value(digits) as usize, adj: adj as isize })
    }
}

/// The view of a parse result, for comparison with `parse_degree`.
pub open spec fn degree_result_view(result: Result<Degree, DegreeParseError>) -> Result<
    Degree,
    SpecDegreeParseError,
> {
    match result {
        Ok(degree) => Ok(degree),
        Err(error) => Err(error@),
    }
}

impl Degree {
    /// The degree's notation: its accidentals, then its position.
    pub open spec fn text(self) -> Seq<char> {
        accidental_marks(self.adj as int) + decimal(self.degree as nat)
    }

    /// Parses a degree such as "7", "b7", "#9" or "bb7".
    pub fn from_str(s: &str) -> (result: Result<Degree, DegreeParseError>)
        ensures
            degree_result_view(result) == parse_degree(s@),
            result is Ok ==> result->Ok_0.wf(),
    {
        let chars = chars_of(s);
        let marks_end = scan(&chars, CharClass::Accidental, 0);
        let digits_end = scan(&chars, CharClass::Digit, marks_end);
        let ghost digits = chars@.subrange(marks_end as int, chars.len() as int);
        proof {
            lemma_span_end(chars@, CharClass::Digit, marks_end as int);
            if digits_end == chars.len() {
                assert(forall|i: int|
                    0 <= i < digits.len() ==> digits[i] == chars@[marks_end + i]);
            } else {
                assert(digits[digits_end - marks_end] == chars@[digits_end as int]);
            }
        }
        if digits_end != chars.len() || digits_end == marks_end {
            return Err(DegreeParseError::InvalidDegree(s.to_owned()));
        }
        let adj = read_accidentals(&chars, 0, marks_end);
        match read_decimal(&chars, marks_end, digits_end) {
            None => Err(DegreeParseError::ParseIntError),
            Some(degree) => {
                if adj < isize::MIN as i128 || adj > isize::MAX as i128 {
                    Err(DegreeParseError::ParseIntError)
                } else if degree == 0 {
                    Err(DegreeParseError::InvalidDegree(s.to_owned()))
                } else {
                    Ok(Degree { degree, adj: adj as isize })
                }
            },
        }
    }

    /// Renders the degree in the notation that `from_str` reads.
    pub fn to_string(&self) -> (text: String)
        ensures
            text@ == self.text(),
    {
        let mut text = String::new();
        push_accidentals(&mut text, self.adj);
        push_decimal(&mut text, self.degree);
        assert(text@ =~= self.text());
        text
    }
}

impl Degree {
    /// Tells whether two degrees are the same.
    pub fn same(&self, other: &Degree) -> (same: bool)
        ensures
            same == (*self == *other),
    {
        self.degree == other.degree && self.adj == other.adj
    }
}

/// Parses a degree, e.g. "b7", for `str::parse`. What comes out is what `Degree::from_str` states.
impl core::str::FromStr for Degree {
    type Err = DegreeParseError;

    fn from_str(s: &str) -> (result: Result<Degree, DegreeParseError>)
        ensures
            degree_result_view(result) == parse_degree(s@),
            result is Ok ==> result->Ok_0.wf(),
    {
        Degree::from_str(s)
    }
}

} // verus!
