use vstd::prelude::*;
use crate::degree::Degree;
use crate::key::{scale_semitones, scale_step, Mode};
use crate::text::chars_of;
use vstd::std_specs::convert::FromSpecImpl;
use vstd::string::StringExecFns;

verus! {

/// A signed pitch distance in semitones.
#[derive(Debug, Copy, Clone, PartialEq, Eq, Structural)]
pub struct Interval {
    pub semitones: isize,
}

/// The greatest step (`0..7`) of a mode's scale that lies at or below a pitch
/// class (`0..12` semitones above the tonic).
pub open spec fn step_at_or_below(mode: Mode, class: int) -> int {
    if scale_step(mode, 6) <= class {
        6
    } else if scale_step(mode, 5) <= class {
        5
    } else if scale_step(mode, 4) <= class {
        4
    } else if scale_step(mode, 3) <= class {
        3
    } else if scale_step(mode, 2) <= class {
        2
    } else if scale_step(mode, 1) <= class {
        1
    } else {
        0
    }
}

/// The scale degree that names a pitch class (`0..12` semitones above the
/// tonic) in a mode: the nearest degree of the scale at or below it, raised
/// by what is left.
pub open spec fn pitch_class_degree(mode: Mode, class: int) -> Degree {
    let step = step_at_or_below(mode, class);
    Degree { degree: (step + 1) as usize, adj: (class - scale_step(mode, step)) as isize }
}

/// The degree that names a pitch class lies at or below it, no degree of the
/// scale lies between the two, and the degree is raised by a semitone at
/// most.
pub proof fn lemma_pitch_class_degree(mode: Mode, class: int)
    requires
        0 <= class < 12,
    ensures
        0 <= step_at_or_below(mode, class) < 7,
        scale_step(mode, step_at_or_below(mode, class)) <= class,
        forall|step: int|
            0 <= step < 7 && #[trigger] scale_step(mode, step) <= class ==> step
                <= step_at_or_below(mode, class),
        pitch_class_degree(mode, class).degree == step_at_or_below(mode, class) + 1,
        pitch_class_degree(mode, class).adj == class - scale_step(
            mode,
            step_at_or_below(mode, class),
        ),
        0 <= pitch_class_degree(mode, class).adj <= 1,
        pitch_class_degree(mode, class).semitones(mode) == class,
{
}

/// Reduces a semitone count to its pitch class.
pub fn pitch_class(semitones: isize) -> (class: usize)
    ensures
        class == semitones % 12,
        class < 12,
{
    let rem: isize = semitones % 12;
    if rem < 0 {
        (rem + 12) as usize
    } else {
        rem as usize
    }
}

impl Interval {
    /// The degree of the mode's scale that lies this interval above the
    /// tonic, disregarding octaves.
    pub open spec fn spec_to_degree(self, mode: Mode) -> Degree {
        pitch_class_degree(mode, (self.semitones as int) % 12)
    }

    /// Expresses the interval as a scale degree of the mode, within the first
    /// octave: the nearest degree of the scale at or below the interval's
    /// pitch class, raised by what is left. Resolving the degree again gives
    /// the interval's pitch class.
    pub fn to_degree(&self, mode: &Mode) -> (degree: Degree)
        ensures
            degree == self.spec_to_degree(*mode),
            1 <= degree.degree <= 7,
            0 <= degree.adj <= 1,
            scale_step(*mode, degree.degree - 1) + degree.adj == self.semitones % 12,
            forall|step: int|
                0 <= step < 7 && #[trigger] scale_step(*mode, step) <= self.semitones % 12
                    ==> step <= degree.degree - 1,
            degree.semitones(*mode) == self.semitones % 12,
    {
        let class = pitch_class(self.semitones);
        proof {
            lemma_pitch_class_degree(*mode, class as int);
        }
        let mut step: usize = 6;
        while step > 0 && scale_semitones(*mode, step) > class
            invariant
                step <= 6,
                class < 12,
                forall|above: int|
                    step < above < 7 ==> #[trigger] scale_step(*mode, above) > class,
            decreases step,
        {
            step -= 1;
        }
        let below = scale_semitones(*mode, step);
        assert(step == step_at_or_below(*mode, class as int)) by {
            assert(scale_step(*mode, 0) <= class);
            if step < 6 {
                assert(scale_step(*mode, step + 1) > class);
            }
        }
        Degree { degree: step + 1, adj: (class - below) as isize }
    }
}

/// The name of the interval that spans a pitch class (`0..12` semitones):
/// perfect, major, minor or diminished, and the number of scale steps.
pub open spec fn interval_name(class: int) -> Seq<char> {
    if class == 0 {
        seq!['P', '1']
    } else if class == 1 {
        seq!['m', '2']
    } else if class == 2 {
        seq!['M', '2']
    } else if class == 3 {
        seq!['m', '3']
    } else if class == 4 {
        seq!['M', '3']
    } else if class == 5 {
        seq!['P', '4']
    } else if class == 6 {
        seq!['d', '5']
    } else if class == 7 {
        seq!['P', '5']
    } else if class == 8 {
        seq!['m', '6']
    } else if class == 9 {
        seq!['M', '6']
    } else if class == 10 {
        seq!['m', '7']
    } else {
        seq!['M', '7']
    }
}

/// The semitones of the interval named by a quality (`P`, `M`, `m`, `A`,
/// `d`) and a number of scale steps (`1` to `8`), where there is one.
pub open spec fn named_interval(quality: char, number: char) -> Option<isize> {
    if (quality == 'P' && number == '1') || (quality == 'd' && number == '2') {
        Some(0isize)
    } else if (quality == 'm' && number == '2') || (quality == 'A' && number == '1') {
        Some(1isize)
    } else if (quality == 'M' && number == '2') || (quality == 'd' && number == '3') {
        Some(2isize)
    } else if (quality == 'm' && number == '3') || (quality == 'A' && number == '2') {
        Some(3isize)
    } else if (quality == 'M' && number == '3') || (quality == 'd' && number == '4') {
        Some(4isize)
    } else if (quality == 'P' && number == '4') || (quality == 'A' && number == '3') {
        Some(5isize)
    } else if (quality == 'd' && number == '5') || (quality == 'A' && number == '4') {
        Some(6isize)
    } else if (quality == 'P' && number == '5') || (quality == 'd' && number == '6') {
        Some(7isize)
    } else if (quality == 'm' && number == '6') || (quality == 'A' && number == '5') {
        Some(8isize)
    } else if (quality == 'M' && number == '6') || (quality == 'd' && number == '7') {
        Some(9isize)
    } else if (quality == 'm' && number == '7') || (quality == 'A' && number == '6') {
        Some(10isize)
    } else if (quality == 'M' && number == '7') || (quality == 'd' && number == '8') {
        Some(11isize)
    } else if (quality == 'P' && number == '8') || (quality == 'A' && number == '7') {
        Some(12isize)
    } else {
        None
    }
}

/// Why a text is not an interval.
#[derive(Debug, Clone, PartialEq, Eq)]
pub enum IntervalParseError {
    /// The text is not the name of an interval.
    InvalidInterval(String),
}

/// An `IntervalParseError` as a mathematical value.
pub enum SpecIntervalParseError {
    InvalidInterval(Seq<char>),
}

impl View for IntervalParseError {
    type V = SpecIntervalParseError;

    open spec fn view(&self) -> SpecIntervalParseError {
        match self {
            IntervalParseError::InvalidInterval(text) => SpecIntervalParseError::InvalidInterval(
                text@,
            ),
        }
    }
}

/// What a text reads as: a two-character interval name gives its semitones,
/// anything else is rejected with the text.
pub open spec fn parse_interval(s: Seq<char>) -> Result<Interval, SpecIntervalParseError> {
    if s.len() == 2 && named_interval(s[0], s[1]) is Some {
        Ok(Interval { semitones: named_interval(s[0], s[1])->Some_0 })
    } else {
        Err(SpecIntervalParseError::InvalidInterval(s))
    }
}

/// The view of a parse result, for comparison with `parse_interval`.
pub open spec fn interval_result_view(result: Result<Interval, IntervalParseError>) -> Result<
    Interval,
    SpecIntervalParseError,
> {
    match result {
        Ok(interval) => Ok(interval),
        Err(error) => Err(error@),
    }
}

fn interval_by_name(quality: char, number: char) -> (semitones: Option<isize>)
    ensures
        semitones == named_interval(quality, number),
{
    if (quality == 'P' && number == '1') || (quality == 'd' && number == '2') {
        Some(0)
    } else if (quality == 'm' && number == '2') || (quality == 'A' && number == '1') {
        Some(1)
    } else if (quality == 'M' && number == '2') || (quality == 'd' && number == '3') {
        Some(2)
    } else if (quality == 'm' && number == '3') || (quality == 'A' && number == '2') {
        Some(3)
    } else if (quality == 'M' && number == '3') || (quality == 'd' && number == '4') {
        Some(4)
    } else if (quality == 'P' && number == '4') || (quality == 'A' && number == '3') {
        Some(5)
    } else if (quality == 'd' && number == '5') || (quality == 'A' && number == '4') {
        Some(6)
    } else if (quality == 'P' && number == '5') || (quality == 'd' && number == '6') {
        Some(7)
    } else if (quality == 'm' && number == '6') || (quality == 'A' && number == '5') {
        Some(8)
    } else if (quality == 'M' && number == '6') || (quality == 'd' && number == '7') {
        Some(9)
    } else if (quality == 'm' && number == '7') || (quality == 'A' && number == '6') {
        Some(10)
    } else if (quality == 'M' && number == '7') || (quality == 'd' && number == '8') {
        Some(11)
    } else if (quality == 'P' && number == '8') || (quality == 'A' && number == '7') {
        Some(12)
    } else {
        None
    }
}

impl Interval {
    /// The interval's name, disregarding octaves.
    pub open spec fn name(self) -> Seq<char> {
        interval_name((self.semitones as int) % 12)
    }

    /// Renders the name of the interval's pitch class, such as "M3".
    pub fn to_string(&self) -> (text: String)
        ensures
            text@ == self.name(),
    {
        let class = pitch_class(self.semitones);
        proof {
            reveal_strlit("P1");
            reveal_strlit("m2");
            reveal_strlit("M2");
            reveal_strlit("m3");
            reveal_strlit("M3");
            reveal_strlit("P4");
            reveal_strlit("d5");
            reveal_strlit("P5");
            reveal_strlit("m6");
            reveal_strlit("M6");
            reveal_strlit("m7");
            reveal_strlit("M7");
        }
        let name = if class == 0 {
            "P1"
        } else if class == 1 {
            "m2"
        } else if class == 2 {
            "M2"
        } else if class == 3 {
            "m3"
        } else if class == 4 {
            "M3"
        } else if class == 5 {
            "P4"
        } else if class == 6 {
            "d5"
        } else if class == 7 {
            "P5"
        } else if class == 8 {
            "m6"
        } else if class == 9 {
            "M6"
        } else if class == 10 {
            "m7"
        } else {
            "M7"
        };
        assert(name@ =~= self.name());
        String::from_str(name)
    }

    /// Parses an interval name such as "M3", "m3", "A5" or "d5".
    pub fn from_str(s: &str) -> (result: Result<Interval, IntervalParseError>)
        ensures
            interval_result_view(result) == parse_interval(s@),
    {
        let chars = chars_of(s);
        if chars.len() == 2 {
            match interval_by_name(chars[0], chars[1]) {
                Some(semitones) => Ok(Interval { semitones }),
                None => Err(IntervalParseError::InvalidInterval(s.to_owned())),
            }
        } else {
            Err(IntervalParseError::InvalidInterval(s.to_owned()))
        }
    }
}

/// Generate an interval from a number of semitones.
impl From<isize> for Interval {
    fn from(semitones: isize) -> (interval: Interval) {
        Interval { semitones }
    }
}

impl FromSpecImpl<isize> for Interval {
    open spec fn obeys_from_spec() -> bool {
        true
    }

    open spec fn from_spec(semitones: isize) -> Interval {
        Interval { semitones }
    }
}

/// Parses an interval, e.g. "M3", for `str::parse`. What comes out is what `Interval::from_str` states.
impl core::str::FromStr for Interval {
    type Err = IntervalParseError;

    fn from_str(s: &str) -> (result: Result<Interval, IntervalParseError>)
        ensures
            interval_result_view(result) == parse_interval(s@),
    {
        Interval::from_str(s)
    }
}

} // verus!
