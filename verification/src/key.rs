use vstd::prelude::*;
use vstd::string::StringExecFns;
use crate::degree::Degree;
use crate::interval::Interval;
use crate::note::Note;

verus! {

/// Scale quality.
#[derive(Debug, Copy, Clone, PartialEq, Eq, Structural)]
pub enum Mode {
    Major,
    Minor,
}

/// Semitones above the tonic of each of the seven steps (`0..7`) of a mode's
/// scale.
pub open spec fn scale_step(mode: Mode, step: int) -> int {
    match mode {
        Mode::Major => if step == 0 {
            0
        } else if step == 1 {
            2
        } else if step == 2 {
            4
        } else if step == 3 {
            5
        } else if step == 4 {
            7
        } else if step == 5 {
            9
        } else {
            11
        },
        Mode::Minor => if step == 0 {
            0
        } else if step == 1 {
            1
        } else if step == 2 {
            3
        } else if step == 3 {
            5
        } else if step == 4 {
            7
        } else if step == 5 {
            8
        } else {
            10
        },
    }
}

/// Looks a scale step up in the mode's table.
pub fn scale_semitones(mode: Mode, step: usize) -> (semitones: usize)
    requires
        step < 7,
    ensures
        semitones == scale_step(mode, step as int),
        semitones <= 11,
{
    match mode {
        Mode::Major => if step == 0 {
            0
        } else if step == 1 {
            2
        } else if step == 2 {
            4
        } else if step == 3 {
            5
        } else if step == 4 {
            7
        } else if step == 5 {
            9
        } else {
            11
        },
        Mode::Minor => if step == 0 {
            0
        } else if step == 1 {
            1
        } else if step == 2 {
            3
        } else if step == 3 {
            5
        } else if step == 4 {
            7
        } else if step == 5 {
            8
        } else {
            10
        },
    }
}

impl Mode {
    /// The mode's display name.
    pub open spec fn name(self) -> Seq<char> {
        match self {
            Mode::Major => "Major"@,
            Mode::Minor => "Minor"@,
        }
    }

    /// The mode's display name.
    pub fn to_string(&self) -> (text: String)
        ensures
            text@ == self.name(),
    {
        match self {
            Mode::Major => String::from_str("Major"),
            Mode::Minor => String::from_str("Minor"),
        }
    }
}

/// A tonal center: a root pitch and a scale quality.
#[derive(Debug, Copy, Clone, PartialEq, Eq, Structural)]
pub struct Key {
    pub root: Note,
    pub mode: Mode,
}

impl Key {
    /// Semitones from the key's root to a scale degree, within one octave of
    /// the scale: the degree's step in the mode's table, plus its chromatic
    /// adjustment. Degrees above 7 wrap to the same step as seven below.
    pub open spec fn spec_interval(self, degree: Degree) -> int {
        scale_step(self.mode, (degree.degree - 1) % 7) + degree.adj
    }

    /// Semitone position of the pitch at a scale degree of this key; each
    /// seven degrees lie an octave higher.
    pub open spec fn spec_note(self, degree: Degree) -> int {
        self.root.semitones + degree.semitones(self.mode)
    }

    /// Compute the interval from the key's root to the given scale degree.
    /// Scale degrees are 1-indexed: degree 1 is the root note of the key.
    pub fn interval(&self, degree: &Degree) -> (interval: Interval)
        requires
            degree.wf(),
            self.spec_interval(*degree) <= isize::MAX,
        ensures
            interval.semitones == self.spec_interval(*degree),
    {
        let step = scale_semitones(self.mode, (degree.degree - 1) % 7);
        Interval { semitones: step as isize + degree.adj }
    }

    /// Tells whether the note at a scale degree is a pitch that the machine's
    /// integers hold.
    pub fn reaches(&self, degree: &Degree) -> (reached: bool)
        requires
            degree.wf(),
        ensures
            reached == (isize::MIN <= self.spec_note(*degree) <= isize::MAX),
    {
        let wide: i128 = self.root.semitones as i128 + degree.semitones_wide(&self.mode);
        isize::MIN as i128 <= wide && wide <= isize::MAX as i128
    }

    /// Compute the note at the given scale degree. Degree 1, unadjusted, is
    /// the key's root.
    pub fn note(&self, degree: &Degree) -> (note: Note)
        requires
            degree.wf(),
            isize::MIN <= self.spec_note(*degree) <= isize::MAX,
        ensures
            note.semitones == self.spec_note(*degree),
            degree.degree == 1 && degree.adj == 0 ==> note == self.root,
    {
        let wide: i128 = self.root.semitones as i128 + degree.semitones_wide(&self.mode);
        Note { semitones: wide as isize }
    }
}

impl Default for Key {
    /// C major, rooted 39 semitones above A0.
    fn default() -> (key: Key)
        ensures
            key.mode == Mode::Major,
            key.root.semitones == 39,
    {
        Key { mode: Mode::Major, root: Note { semitones: 39 } }
    }
}

/// The scale wraps every seven degrees: seven degrees up, the interval within
/// the octave is the same, and the pitch is an octave higher.
pub proof fn lemma_scale_wraps(key: Key, degree: Degree)
    requires
        degree.wf(),
        degree.degree + 7 <= usize::MAX,
    ensures
        key.spec_interval(Degree { degree: (degree.degree + 7) as usize, adj: degree.adj })
            == key.spec_interval(degree),
        key.spec_note(Degree { degree: (degree.degree + 7) as usize, adj: degree.adj })
            == key.spec_note(degree) + 12,
        0 <= key.spec_interval(degree) - degree.adj <= 11,
{
}

} // verus!
