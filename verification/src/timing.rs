use vstd::prelude::*;
use vstd::string::StringExecFns;

verus! {

/// The subdivision of a bar that one tick of a progression grid stands for,
/// in 4/4 time.
#[derive(Debug, Clone, Copy, PartialEq, Eq, Structural)]
pub enum Duration {
    Quarter,
    Eighth,
    Sixteenth,
    ThirtySecond,
}

impl Duration {
    /// Number of ticks that make up one bar.
    pub open spec fn spec_ticks_per_bar(&self) -> usize {
        match self {
            Duration::Quarter => 4,
            Duration::Eighth => 8,
            Duration::Sixteenth => 16,
            Duration::ThirtySecond => 32,
        }
    }

    /// Number of ticks that make up one beat (a quarter note).
    pub open spec fn spec_ticks_per_beat(&self) -> usize {
        match self {
            Duration::Quarter => 1,
            Duration::Eighth => 2,
            Duration::Sixteenth => 4,
            Duration::ThirtySecond => 8,
        }
    }

    /// The note value as a fraction of a whole note.
    pub open spec fn name(self) -> Seq<char> {
        match self {
            Duration::Quarter => "1/4"@,
            Duration::Eighth => "1/8"@,
            Duration::Sixteenth => "1/16"@,
            Duration::ThirtySecond => "1/32"@,
        }
    }

    /// Renders the note value, such as "1/8".
    pub fn to_string(&self) -> (text: String)
        ensures
            text@ == self.name(),
    {
        match self {
            Duration::Quarter => String::from_str("1/4"),
            Duration::Eighth => String::from_str("1/8"),
            Duration::Sixteenth => String::from_str("1/16"),
            Duration::ThirtySecond => String::from_str("1/32"),
        }
    }

    /// Number of ticks that make up one bar.
    #[verifier::when_used_as_spec(spec_ticks_per_bar)]
    pub fn ticks_per_bar(&self) -> (ticks: usize)
        ensures
            ticks == self.spec_ticks_per_bar(),
    {
        match self {
            Duration::Quarter => 4,
            Duration::Eighth => 8,
            Duration::Sixteenth => 16,
            Duration::ThirtySecond => 32,
        }
    }

    /// Number of ticks that make up one beat (a quarter note).
    #[verifier::when_used_as_spec(spec_ticks_per_beat)]
    pub fn ticks_per_beat(&self) -> (ticks: usize)
        ensures
            ticks == self.spec_ticks_per_beat(),
    {
        match self {
            Duration::Quarter => 1,
            Duration::Eighth => 2,
            Duration::Sixteenth => 4,
            Duration::ThirtySecond => 8,
        }
    }
}

} // verus!
