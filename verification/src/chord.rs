use vstd::prelude::*;
use vstd::math::abs;
use vstd::relations::{sorted_by, total_ordering};
use vstd::seq_lib::{lemma_sorted_unique, to_multiset_build, to_multiset_remove};
use vstd::string::StringExecFns;
use crate::degree::Degree;
use crate::interval::{pitch_class_degree, Interval};
use crate::key::{scale_semitones, scale_step, Key, Mode};
use crate::note::Note;
use crate::text::joined;

verus! {

/// A scale position up to which chord arithmetic surely stays within the
/// machine's integers. With this bound and the two below, every semitone
/// count that is derived from a chord, and every distance between two chords,
/// fits the machine's integers, on 32-bit targets too.
pub const MAX_DEGREE: usize = 65536;

/// A chromatic adjustment, in semitones either way, up to which chord
/// arithmetic surely stays within the machine's integers.
pub const MAX_ADJ: isize = 65536;

/// A number of extensions up to which chord arithmetic surely stays within
/// the machine's integers.
pub const MAX_EXTENSIONS: usize = 1024;

/// The base interval skeleton of a chord.
#[derive(Debug, Copy, Clone, PartialEq, Eq, Structural)]
pub enum Triad {
    /// The triad of the chord's own mode: major or minor.
    Mode,
    Diminished,
    Augmented,
    Sus2,
    Sus4,
    Power,
}

/// A chord described relative to a key that is not yet chosen: a root degree,
/// a triad, added degrees, and how it is voiced.
#[derive(Debug, PartialEq, Eq)]
pub struct ChordSpec {
    pub root: Degree,
    pub mode: Mode,
    pub triad: Triad,
    pub extensions: Vec<Degree>,
    pub bass_degree: Option<Degree>,
    pub inversion: usize,
    pub rel_key: Option<(usize, Mode)>,
}

/// A `ChordSpec` as a mathematical value.
pub struct ChordSpecView {
    pub root: Degree,
    pub mode: Mode,
    pub triad: Triad,
    pub extensions: Seq<Degree>,
    pub bass_degree: Option<Degree>,
    pub inversion: usize,
    pub rel_key: Option<(usize, Mode)>,
}

impl View for ChordSpec {
    type V = ChordSpecView;

    open spec fn view(&self) -> ChordSpecView {
        ChordSpecView {
            root: self.root,
            mode: self.mode,
            triad: self.triad,
            extensions: self.extensions@,
            bass_degree: self.bass_degree,
            inversion: self.inversion,
            rel_key: self.rel_key,
        }
    }
}

/// The semitones of a triad's notes above its root.
pub open spec fn triad_intervals(triad: Triad, mode: Mode) -> Seq<int> {
    match triad {
        Triad::Mode => match mode {
            Mode::Major => seq![0int, 4, 7],
            Mode::Minor => seq![0int, 3, 7],
        },
        Triad::Diminished => seq![0int, 3, 6],
        Triad::Augmented => seq![0int, 4, 8],
        Triad::Sus2 => seq![0int, 2, 7],
        Triad::Sus4 => seq![0int, 5, 7],
        Triad::Power => seq![0int, 7],
    }
}

/// Raises by an octave every interval that lies below the bass.
pub open spec fn raise_below(intervals: Seq<int>, bass: int) -> Seq<int> {
    Seq::new(
        intervals.len(),
        |i: int|
            if intervals[i] < bass {
                intervals[i] + 12
            } else {
                intervals[i]
            },
    )
}

/// Moves the first `count` intervals (all of them, if there are fewer) behind
/// the others and an octave up.
pub open spec fn rotate_up(intervals: Seq<int>, count: int) -> Seq<int> {
    let moved = if count < intervals.len() {
        count
    } else {
        intervals.len() as int
    };
    Seq::new(
        intervals.len(),
        |i: int|
            if i < intervals.len() - moved {
                intervals[i + moved]
            } else {
                intervals[i - (intervals.len() - moved)] + 12
            },
    )
}

/// Whether an exact list of semitones is what a list of machine integers
/// holds.
pub open spec fn holds(values: Seq<isize>, exact: Seq<int>) -> bool {
    &&& values.len() == exact.len()
    &&& forall|i: int| 0 <= i < exact.len() ==> #[trigger] values[i] as int == exact[i]
}

impl Degree {
    /// The degree lies within the bounds of chord arithmetic.
    pub open spec fn in_range(self) -> bool {
        &&& 1 <= self.degree <= MAX_DEGREE
        &&& -MAX_ADJ <= self.adj <= MAX_ADJ
    }

    /// Tells whether the degree lies within the bounds of chord arithmetic.
    pub fn is_in_range(&self) -> (within: bool)
        ensures
            within == self.in_range(),
    {
        1 <= self.degree && self.degree <= MAX_DEGREE && -MAX_ADJ <= self.adj && self.adj
            <= MAX_ADJ
    }
}

impl ChordSpecView {
    /// The description that `ChordSpec::new` gives: a plain triad on a degree.
    pub open spec fn plain(degree: usize, mode: Mode) -> ChordSpecView {
        ChordSpecView {
            root: Degree { degree, adj: 0 },
            mode,
            triad: Triad::Mode,
            extensions: Seq::empty(),
            bass_degree: None,
            inversion: 0,
            rel_key: None,
        }
    }

    /// Every scale position in the description counts from 1.
    pub open spec fn wf(self) -> bool {
        &&& self.root.wf()
        &&& forall|i: int| 0 <= i < self.extensions.len() ==> (#[trigger] self.extensions[i]).wf()
        &&& self.bass_degree is Some ==> self.bass_degree->Some_0.wf()
        &&& self.rel_key is Some ==> self.rel_key->Some_0.0 >= 1
    }

    /// The description is well formed and small enough that every semitone
    /// count derived from it surely fits the machine's integers, on 32-bit
    /// targets too. No function asks for this; it is a test that is enough
    /// for what they ask for.
    pub open spec fn in_range(self) -> bool {
        &&& self.root.in_range()
        &&& self.extensions.len() <= MAX_EXTENSIONS
        &&& forall|i: int|
            0 <= i < self.extensions.len() ==> (#[trigger] self.extensions[i]).in_range()
        &&& self.bass_degree is Some ==> self.bass_degree->Some_0.in_range()
        &&& self.rel_key is Some ==> self.rel_key->Some_0.0 >= 1
    }

    /// The mode in which extensions and bass are resolved: that of the
    /// relative key if there is one, else the chord's own.
    pub open spec fn effective_mode(self) -> Mode {
        match self.rel_key {
            None => self.mode,
            Some((_, mode)) => mode,
        }
    }

    /// The semitones by which a relative key moves the chord: the interval
    /// of the key's degree in the chord's own mode.
    pub open spec fn key_offset(self) -> int {
        match self.rel_key {
            None => 0,
            Some((degree, _)) => scale_step(self.mode, (degree - 1) % 7),
        }
    }

    /// The triad followed by the extensions, each resolved in the effective
    /// mode.
    pub open spec fn stacked(self) -> Seq<int> {
        triad_intervals(self.triad, self.mode) + Seq::new(
            self.extensions.len(),
            |i: int| self.extensions[i].semitones(self.effective_mode()),
        )
    }

    /// The stacked intervals with those below the bass, if one is given,
    /// raised by an octave.
    pub open spec fn over_bass(self) -> Seq<int> {
        match self.bass_degree {
            None => self.stacked(),
            Some(bass) => raise_below(self.stacked(), bass.semitones(self.effective_mode())),
        }
    }

    /// The intervals that make up the chord, relative to the chord's root:
    /// stacked, set over the bass, inverted, and moved to the relative key.
    pub open spec fn intervals(self) -> Seq<int> {
        let inverted = rotate_up(self.over_bass(), self.inversion as int);
        Seq::new(inverted.len(), |i: int| inverted[i] + self.key_offset())
    }

    /// The chord's intervals relative to the root of the key.
    pub open spec fn intervals_from_key_root(self) -> Seq<int> {
        let offset = self.root.semitones(self.mode);
        Seq::new(self.intervals().len(), |i: int| self.intervals()[i] + offset)
    }

    /// The description with another triad.
    pub open spec fn with_triad(self, triad: Triad) -> ChordSpecView {
        ChordSpecView { triad, ..self }
    }

    /// The description with one more extension.
    pub open spec fn with_extension(self, degree: Degree) -> ChordSpecView {
        ChordSpecView { extensions: self.extensions.push(degree), ..self }
    }

    /// The description with a bass degree.
    pub open spec fn with_bass(self, degree: Degree) -> ChordSpecView {
        ChordSpecView { bass_degree: Some(degree), ..self }
    }

    /// The description with a relative key.
    pub open spec fn with_rel_key(self, degree: usize, mode: Mode) -> ChordSpecView {
        ChordSpecView { rel_key: Some((degree, mode)), ..self }
    }

    /// The description with another adjustment of the root.
    pub open spec fn with_adj(self, adj: isize) -> ChordSpecView {
        ChordSpecView { root: Degree { degree: self.root.degree, adj }, ..self }
    }

    /// The description shifted by a number of octaves.
    pub open spec fn shifted(self, octaves: int) -> ChordSpecView {
        self.with_adj((self.root.adj + 12 * octaves) as isize)
    }

    /// The description with another inversion count.
    pub open spec fn with_inversion(self, inversion: usize) -> ChordSpecView {
        ChordSpecView { inversion, ..self }
    }
}

/// Every semitone count of a chord in range is well inside the machine's
/// integers.
pub proof fn lemma_intervals_bounded(v: ChordSpecView)
    requires
        v.in_range(),
    ensures
        v.wf(),
        v.intervals().len() == v.stacked().len(),
        v.over_bass().len() == v.stacked().len(),
        2 <= v.stacked().len() <= 3 + MAX_EXTENSIONS,
        forall|i: int| 0 <= i < v.stacked().len() ==> -70000 <= #[trigger] v.stacked()[i] <= 180000,
        forall|i: int|
            0 <= i < v.stacked().len() ==> -70000 <= #[trigger] v.over_bass()[i] <= 180012,
        forall|i: int|
            0 <= i < v.stacked().len() ==> -70000 <= #[trigger] v.intervals()[i] <= 180040,
        -70000 <= v.root.semitones(v.mode) <= 180000,
        forall|i: int|
            0 <= i < v.stacked().len() ==> -140000 <= #[trigger] v.intervals_from_key_root()[i]
                <= 360040,
        v.intervals_from_key_root().len() == v.stacked().len(),
{
    let mode = v.effective_mode();
    assert forall|i: int| 0 <= i < v.stacked().len() implies -70000 <= #[trigger] v.stacked()[i]
        <= 180000 by {
        let base = triad_intervals(v.triad, v.mode);
        if i >= base.len() {
            assert(v.extensions[i - base.len()].in_range());
        }
    }
    let inverted = rotate_up(v.over_bass(), v.inversion as int);
    assert forall|i: int| 0 <= i < v.stacked().len() implies -70000 <= #[trigger] inverted[i]
        <= 180024 by {
        let moved = if (v.inversion as int) < v.over_bass().len() {
            v.inversion as int
        } else {
            v.over_bass().len() as int
        };
        if i < v.over_bass().len() - moved {
            assert(-70000 <= v.over_bass()[i + moved] <= 180012);
        } else {
            assert(-70000 <= v.over_bass()[i - (v.over_bass().len() - moved)] <= 180012);
        }
    }
    assert forall|i: int| 0 <= i < v.stacked().len() implies -70000 <= #[trigger] v.intervals()[i]
        <= 180040 by {
        assert(-70000 <= inverted[i] <= 180024);
    }
}

/// Whether every number of a list is one that the machine's integers hold.
pub open spec fn fits(values: Seq<int>) -> bool {
    forall|i: int| 0 <= i < values.len() ==> isize::MIN <= #[trigger] values[i] <= isize::MAX
}

/// Whether an exact list of semitones is what a list of wide integers holds.
pub open spec fn holds_wide(values: Seq<i128>, exact: Seq<int>) -> bool {
    &&& values.len() == exact.len()
    &&& forall|i: int| 0 <= i < exact.len() ==> #[trigger] values[i] as int == exact[i]
}

/// A bound that no semitone count of a well-formed chord reaches.
pub open spec fn wide_limit() -> int {
    0x1_0000_0000_0000_0000_0000
}

/// Every semitone count of a well-formed chord lies far within the integers
/// of twice the machine's width.
pub proof fn lemma_intervals_wide(v: ChordSpecView)
    requires
        v.wf(),
    ensures
        v.intervals().len() == v.stacked().len(),
        v.over_bass().len() == v.stacked().len(),
        v.intervals_from_key_root().len() == v.stacked().len(),
        v.stacked().len() >= 2,
        forall|i: int|
            0 <= i < v.stacked().len() ==> -wide_limit() <= #[trigger] v.stacked()[i]
                <= wide_limit(),
        forall|i: int|
            0 <= i < v.stacked().len() ==> -wide_limit() <= #[trigger] v.over_bass()[i]
                <= wide_limit() + 12,
        forall|i: int|
            0 <= i < v.stacked().len() ==> -wide_limit() <= #[trigger] v.intervals()[i]
                <= wide_limit() + 40,
        -wide_limit() <= v.root.semitones(v.mode) <= wide_limit(),
        forall|i: int|
            0 <= i < v.stacked().len() ==> -2 * wide_limit()
                <= #[trigger] v.intervals_from_key_root()[i] <= 2 * wide_limit() + 40,
{
    assert forall|i: int| 0 <= i < v.stacked().len() implies -wide_limit()
        <= #[trigger] v.stacked()[i] <= wide_limit() by {
        let base = triad_intervals(v.triad, v.mode);
        if i >= base.len() {
            assert(v.extensions[i - base.len()].wf());
        }
    }
    let inverted = rotate_up(v.over_bass(), v.inversion as int);
    assert forall|i: int| 0 <= i < v.stacked().len() implies -wide_limit() <= #[trigger] inverted[i]
        <= wide_limit() + 24 by {
        let moved = if (v.inversion as int) < v.over_bass().len() {
            v.inversion as int
        } else {
            v.over_bass().len() as int
        };
        if i < v.over_bass().len() - moved {
            assert(-wide_limit() <= v.over_bass()[i + moved] <= wide_limit() + 12);
        } else {
            assert(-wide_limit() <= v.over_bass()[i - (v.over_bass().len() - moved)]
                <= wide_limit() + 12);
        }
    }
    assert forall|i: int| 0 <= i < v.stacked().len() implies -wide_limit()
        <= #[trigger] v.intervals()[i] <= wide_limit() + 40 by {
        assert(-wide_limit() <= inverted[i] <= wide_limit() + 24);
    }
}

/// The position of the member of `candidates` that is nearest to `target`;
/// of several equally near, the first.
pub open spec fn nearest(target: int, candidates: Seq<int>) -> int
    decreases candidates.len(),
{
    if candidates.len() <= 1 {
        0
    } else {
        let before = nearest(target, candidates.drop_last());
        if abs(target - candidates.last()) < abs(target - candidates[before]) {
            candidates.len() - 1
        } else {
            before
        }
    }
}

/// `nearest` picks a position of the list at which the distance to the target
/// is least, and the first such position.
pub proof fn lemma_nearest(target: int, candidates: Seq<int>)
    requires
        candidates.len() >= 1,
    ensures
        0 <= nearest(target, candidates) < candidates.len(),
        forall|j: int|
            0 <= j < candidates.len() ==> abs(target - candidates[nearest(target, candidates)])
                <= abs(target - #[trigger] candidates[j]),
        forall|j: int|
            0 <= j < nearest(target, candidates) ==> abs(
                target - candidates[nearest(target, candidates)],
            ) < abs(target - #[trigger] candidates[j]),
    decreases candidates.len(),
{
    if candidates.len() > 1 {
        let front = candidates.drop_last();
        lemma_nearest(target, front);
        assert(forall|j: int| 0 <= j < front.len() ==> front[j] == candidates[j]);
    }
}

/// The movement, in semitones, when each note of `from`, in order, goes to
/// the nearest note of `to` that no earlier note has taken. Notes for which
/// none is left do not move.
pub open spec fn greedy_distance(from: Seq<int>, to: Seq<int>) -> int
    decreases from.len(),
{
    if from.len() == 0 || to.len() == 0 {
        0
    } else {
        let taken = nearest(from[0], to);
        abs(from[0] - to[taken]) + greedy_distance(from.drop_first(), to.remove(taken))
    }
}

impl ChordSpecView {
    /// The distance from this chord to another: the greedy movement between
    /// their intervals from the key's root.
    pub open spec fn distance(self, other: ChordSpecView) -> int {
        greedy_distance(self.intervals_from_key_root(), other.intervals_from_key_root())
    }

    /// One variant of the chord for each of its intervals, with the bass on
    /// the degree of the chord's mode that names that interval.
    pub open spec fn inversions(self) -> Seq<ChordSpecView> {
        Seq::new(
            self.intervals().len(),
            |i: int| self.with_bass(pitch_class_degree(self.mode, self.intervals()[i] % 12)),
        )
    }
}

/// Every note of a list is nearest to itself, so the greedy movement from a
/// list to itself is none.
pub proof fn lemma_greedy_distance_to_self(notes: Seq<int>)
    ensures
        greedy_distance(notes, notes) == 0,
    decreases notes.len(),
{
    if notes.len() > 0 {
        lemma_nearest(notes[0], notes);
        let taken = nearest(notes[0], notes);
        if taken > 0 {
            assert(abs(notes[0] - notes[taken]) < abs(notes[0] - notes[0]));
        }
        assert(notes.remove(0) =~= notes.drop_first());
        lemma_greedy_distance_to_self(notes.drop_first());
    }
}

/// The distance from a chord to itself is zero.
pub proof fn lemma_distance_to_self(v: ChordSpecView)
    ensures
        v.distance(v) == 0,
{
    lemma_greedy_distance_to_self(v.intervals_from_key_root());
}

/// The greedy movement is never negative, and at most the widest gap for
/// each note that moves.
pub proof fn lemma_greedy_distance_bounded(from: Seq<int>, to: Seq<int>, low: int, high: int)
    requires
        forall|i: int| 0 <= i < from.len() ==> low <= #[trigger] from[i] <= high,
        forall|i: int| 0 <= i < to.len() ==> low <= #[trigger] to[i] <= high,
    ensures
        0 <= greedy_distance(from, to) <= from.len() * (high - low),
    decreases from.len(),
{
    if from.len() > 0 && to.len() > 0 {
        let taken = nearest(from[0], to);
        lemma_nearest(from[0], to);
        let rest = from.drop_first();
        let left = to.remove(taken);
        assert(forall|i: int| 0 <= i < rest.len() ==> rest[i] == from[i + 1]);
        assert forall|i: int| 0 <= i < left.len() implies low <= #[trigger] left[i] <= high by {
            if i < taken {
                assert(left[i] == to[i]);
            } else {
                assert(left[i] == to[i + 1]);
            }
        }
        lemma_greedy_distance_bounded(rest, left, low, high);
        assert(low <= from[0] <= high);
        assert(low <= to[taken] <= high);
        assert(from.len() * (high - low) == rest.len() * (high - low) + (high - low))
            by (nonlinear_arith)
            requires
                from.len() == rest.len() + 1,
        ;
    } else {
        if from.len() > 0 {
            assert(low <= from[0] <= high);
        }
        assert(from.len() * (high - low) >= 0) by (nonlinear_arith)
            requires
                from.len() >= 0,
                high - low >= 0 || from.len() == 0,
        ;
    }
}

/// The greedy movement is never negative.
pub proof fn lemma_greedy_distance_nonnegative(from: Seq<int>, to: Seq<int>)
    ensures
        greedy_distance(from, to) >= 0,
    decreases from.len(),
{
    if from.len() > 0 && to.len() > 0 {
        lemma_greedy_distance_nonnegative(from.drop_first(), to.remove(nearest(from[0], to)));
    }
}

impl ChordSpecView {
    /// The distance to another chord can be computed: the intervals of both
    /// from the key's root, and the distance, are numbers that the machine's
    /// integers hold.
    pub open spec fn measurable(self, other: ChordSpecView) -> bool {
        &&& self.wf()
        &&& other.wf()
        &&& fits(self.intervals_from_key_root())
        &&& fits(other.intervals_from_key_root())
        &&& self.distance(other) <= usize::MAX
    }
}

/// A chord within the bounds of chord arithmetic is well formed, and all its
/// semitone counts are numbers that the machine's integers hold.
pub proof fn lemma_in_range_fits(v: ChordSpecView)
    requires
        v.in_range(),
    ensures
        v.wf(),
        fits(v.intervals()),
        fits(v.intervals_from_key_root()),
{
    lemma_intervals_bounded(v);
}

/// The distance between two chords within the bounds of chord arithmetic can
/// be computed.
pub proof fn lemma_in_range_measurable(v: ChordSpecView, other: ChordSpecView)
    requires
        v.in_range(),
        other.in_range(),
    ensures
        v.measurable(other),
{
    lemma_intervals_bounded(v);
    lemma_intervals_bounded(other);
    lemma_greedy_distance_bounded(
        v.intervals_from_key_root(),
        other.intervals_from_key_root(),
        -140000,
        360040,
    );
    assert(v.intervals_from_key_root().len() * 500040 <= 1027 * 500040) by (nonlinear_arith)
        requires
            v.intervals_from_key_root().len() <= 1027,
    ;
}

/// Copies a list of degrees.
fn copy_degrees(degrees: &Vec<Degree>) -> (copy: Vec<Degree>)
    ensures
        copy@ == degrees@,
{
    let mut copy: Vec<Degree> = Vec::new();
    let mut i: usize = 0;
    while i < degrees.len()
        invariant
            i <= degrees.len(),
            copy@ == degrees@.take(i as int),
        decreases degrees.len() - i,
    {
        copy.push(degrees[i]);
        i += 1;
        assert(copy@ =~= degrees@.take(i as int));
    }
    assert(degrees@.take(degrees.len() as int) =~= degrees@);
    copy
}

/// Raises by an octave every interval that lies below the bass.
fn raise_below_bass(intervals: &mut Vec<i128>, bass: i128, Ghost(exact): Ghost<Seq<int>>)
    requires
        holds_wide(old(intervals)@, exact),
        forall|i: int| 0 <= i < exact.len() ==> #[trigger] exact[i] + 12 <= i128::MAX,
    ensures
        holds_wide(final(intervals)@, raise_below(exact, bass as int)),
{
    let mut i: usize = 0;
    while i < intervals.len()
        invariant
            i <= intervals.len(),
            intervals.len() == exact.len(),
            forall|j: int| 0 <= j < exact.len() ==> #[trigger] exact[j] + 12 <= i128::MAX,
            forall|j: int|
                0 <= j < i ==> #[trigger] intervals@[j] as int == raise_below(exact, bass as int)[j],
            forall|j: int| i <= j < exact.len() ==> #[trigger] intervals@[j] as int == exact[j],
        decreases intervals.len() - i,
    {
        let current = intervals[i];
        assert(exact[i as int] + 12 <= i128::MAX);
        if current < bass {
            intervals.set(i, current + 12);
        }
        i += 1;
    }
}

/// Moves the first `count` intervals behind the others and an octave up.
fn rotate_up_by(intervals: &Vec<i128>, count: usize, Ghost(exact): Ghost<Seq<int>>) -> (rotated:
    Vec<i128>)
    requires
        holds_wide(intervals@, exact),
        forall|i: int| 0 <= i < exact.len() ==> #[trigger] exact[i] + 12 <= i128::MAX,
    ensures
        holds_wide(rotated@, rotate_up(exact, count as int)),
{
    let moved: usize = if count < intervals.len() {
        count
    } else {
        intervals.len()
    };
    let mut rotated: Vec<i128> = Vec::new();
    let mut i: usize = moved;
    while i < intervals.len()
        invariant
            moved <= i <= intervals.len(),
            intervals.len() == exact.len(),
            holds_wide(intervals@, exact),
            moved == (if count < intervals.len() {
                count
            } else {
                intervals.len()
            }),
            rotated.len() == i - moved,
            forall|j: int|
                0 <= j < i - moved ==> #[trigger] rotated@[j] as int == rotate_up(
                    exact,
                    count as int,
                )[j],
        decreases intervals.len() - i,
    {
        rotated.push(intervals[i]);
        i += 1;
    }
    let mut k: usize = 0;
    while k < moved
        invariant
            k <= moved <= intervals.len(),
            intervals.len() == exact.len(),
            holds_wide(intervals@, exact),
            moved == (if count < intervals.len() {
                count
            } else {
                intervals.len()
            }),
            forall|j: int| 0 <= j < exact.len() ==> #[trigger] exact[j] + 12 <= i128::MAX,
            rotated.len() == intervals.len() - moved + k,
            forall|j: int|
                0 <= j < rotated.len() ==> #[trigger] rotated@[j] as int == rotate_up(
                    exact,
                    count as int,
                )[j],
        decreases moved - k,
    {
        assert(exact[k as int] + 12 <= i128::MAX);
        rotated.push(intervals[k] + 12);
        k += 1;
    }
    rotated
}

/// Adds `offset` to every interval.
fn offset_all(intervals: &Vec<i128>, offset: i128, Ghost(exact): Ghost<Seq<int>>) -> (moved: Vec<
    i128,
>)
    requires
        holds_wide(intervals@, exact),
        forall|i: int|
            0 <= i < exact.len() ==> i128::MIN <= #[trigger] exact[i] + offset <= i128::MAX,
    ensures
        holds_wide(moved@, Seq::new(exact.len(), |i: int| exact[i] + offset)),
{
    let mut moved: Vec<i128> = Vec::new();
    let mut i: usize = 0;
    while i < intervals.len()
        invariant
            i <= intervals.len(),
            holds_wide(intervals@, exact),
            forall|j: int|
                0 <= j < exact.len() ==> i128::MIN <= #[trigger] exact[j] + offset <= i128::MAX,
            moved.len() == i,
            forall|j: int| 0 <= j < i ==> #[trigger] moved@[j] as int == exact[j] + offset,
        decreases intervals.len() - i,
    {
        assert(i128::MIN <= exact[i as int] + offset <= i128::MAX);
        moved.push(intervals[i] + offset);
        i += 1;
    }
    moved
}

/// Finds the member of `candidates` nearest to `target`.
fn nearest_to(target: isize, candidates: &Vec<isize>, Ghost(exact): Ghost<Seq<int>>) -> (found: (
    usize,
    usize,
))
    requires
        candidates.len() >= 1,
        holds(candidates@, exact),
        forall|i: int| 0 <= i < exact.len() ==> abs(target - #[trigger] exact[i]) <= usize::MAX,
    ensures
        found.0 == nearest(target as int, exact),
        found.0 < candidates.len(),
        found.1 == abs(target - exact[found.0 as int]),
{
    let mut best: usize = 0;
    let mut least: usize = gap(target, candidates[0]);
    let mut i: usize = 1;
    assert(exact.take(1).drop_last() =~= Seq::<int>::empty());
    while i < candidates.len()
        invariant
            1 <= i <= candidates.len(),
            holds(candidates@, exact),
            forall|j: int|
                0 <= j < exact.len() ==> abs(target - #[trigger] exact[j]) <= usize::MAX,
            best == nearest(target as int, exact.take(i as int)),
            best < i,
            least == abs(target - exact[best as int]),
        decreases candidates.len() - i,
    {
        assert(abs(target - exact[i as int]) <= usize::MAX);
        let here = gap(target, candidates[i]);
        proof {
            let grown = exact.take(i + 1);
            assert(grown.drop_last() =~= exact.take(i as int));
            assert(grown.last() == exact[i as int]);
            assert(grown[best as int] == exact[best as int]);
        }
        if here < least {
            best = i;
            least = here;
        }
        i += 1;
    }
    assert(exact.take(candidates.len() as int) =~= exact);
    (best, least)
}

/// The distance between two semitone counts.
fn gap(a: isize, b: isize) -> (distance: usize)
    requires
        abs(a - b) <= usize::MAX,
    ensures
        distance == abs(a - b),
{
    let difference: i128 = a as i128 - b as i128;
    if difference < 0 {
        (-difference) as usize
    } else {
        difference as usize
    }
}

/// Tells whether every number of a list fits the machine's integers.
fn all_fit(values: &Vec<i128>, Ghost(exact): Ghost<Seq<int>>) -> (fit: bool)
    requires
        holds_wide(values@, exact),
    ensures
        fit == fits(exact),
{
    let mut i: usize = 0;
    while i < values.len()
        invariant
            i <= values.len(),
            holds_wide(values@, exact),
            forall|j: int| 0 <= j < i ==> isize::MIN <= #[trigger] exact[j] <= isize::MAX,
        decreases values.len() - i,
    {
        let value = values[i];
        assert(value as int == exact[i as int]);
        if value < isize::MIN as i128 || value > isize::MAX as i128 {
            return false;
        }
        i += 1;
    }
    true
}

/// Brings a list of numbers that fit the machine's integers to that width.
fn narrowed(values: &Vec<i128>, Ghost(exact): Ghost<Seq<int>>) -> (narrow: Vec<isize>)
    requires
        holds_wide(values@, exact),
        fits(exact),
    ensures
        holds(narrow@, exact),
{
    let mut narrow: Vec<isize> = Vec::new();
    let mut i: usize = 0;
    while i < values.len()
        invariant
            i <= values.len(),
            holds_wide(values@, exact),
            fits(exact),
            narrow.len() == i,
            forall|j: int| 0 <= j < i ==> #[trigger] narrow@[j] as int == exact[j],
        decreases values.len() - i,
    {
        let value = values[i];
        assert(value as int == exact[i as int]);
        narrow.push(value as isize);
        i += 1;
    }
    narrow
}

/// The degree of a mode's scale that names the pitch class of an interval.
fn degree_of_pitch(semitones: i128, mode: &Mode) -> (degree: Degree)
    ensures
        degree == pitch_class_degree(*mode, (semitones as int) % 12),
        1 <= degree.degree <= 7,
        0 <= degree.adj <= 1,
{
    let rest: i128 = semitones % 12;
    let class: isize = if rest < 0 {
        (rest + 12) as isize
    } else {
        rest as isize
    };
    assert(class == (semitones as int) % 12);
    assert((class as int) % 12 == class);
    proof {
        crate::interval::lemma_pitch_class_degree(*mode, class as int);
    }
    (Interval { semitones: class }).to_degree(mode)
}

impl Clone for ChordSpec {
    fn clone(&self) -> (copy: ChordSpec)
        ensures
            copy@ == self@,
    {
        ChordSpec {
            root: self.root,
            mode: self.mode,
            triad: self.triad,
            extensions: copy_degrees(&self.extensions),
            bass_degree: self.bass_degree,
            inversion: self.inversion,
            rel_key: self.rel_key,
        }
    }
}

impl ChordSpec {
    /// Every scale position in the description counts from 1.
    pub open spec fn wf(&self) -> bool {
        self@.wf()
    }

    /// The description lies within the bounds of chord arithmetic.
    pub open spec fn in_range(&self) -> bool {
        self@.in_range()
    }

    /// A plain triad of the given mode on a scale degree.
    pub fn new(degree: usize, mode: Mode) -> (spec: ChordSpec)
        requires
            degree >= 1,
        ensures
            spec@ == ChordSpecView::plain(degree, mode),
            spec.wf(),
    {
        ChordSpec {
            root: Degree { degree, adj: 0 },
            mode,
            triad: Triad::Mode,
            extensions: Vec::new(),
            bass_degree: None,
            inversion: 0,
            rel_key: None,
        }
    }

    /// Set the triad type for this chord.
    pub fn triad(self, triad: Triad) -> (spec: ChordSpec)
        ensures
            spec@ == self@.with_triad(triad),
            self.wf() ==> spec.wf(),
    {
        let mut spec = self;
        spec.triad = triad;
        spec
    }

    /// Add a note by scale degree and semitone adjustment: `add(7, 0)` adds
    /// a 7, `add(7, -1)` a "b7", `add(7, 1)` a "#7".
    pub fn add(self, degree: usize, adj: isize) -> (spec: ChordSpec)
        requires
            degree >= 1,
        ensures
            spec@ == self@.with_extension(Degree { degree, adj }),
            self.wf() ==> spec.wf(),
    {
        let mut spec = self;
        spec.extensions.push(Degree { degree, adj });
        spec
    }

    /// Set the bass degree.
    pub fn bass(self, degree: usize, adj: isize) -> (spec: ChordSpec)
        requires
            degree >= 1,
        ensures
            spec@ == self@.with_bass(Degree { degree, adj }),
            self.wf() ==> spec.wf(),
    {
        let mut spec = self;
        spec.bass_degree = Some(Degree { degree, adj });
        spec
    }

    /// Set the relative key, as for secondary dominants.
    pub fn key_of(self, degree: usize, mode: Mode) -> (spec: ChordSpec)
        requires
            degree >= 1,
        ensures
            spec@ == self@.with_rel_key(degree, mode),
            self.wf() ==> spec.wf(),
    {
        let mut spec = self;
        spec.rel_key = Some((degree, mode));
        spec
    }

    /// Set the semitone adjustment of the root, for chromatic roots.
    pub fn adj(self, adj: isize) -> (spec: ChordSpec)
        ensures
            spec@ == self@.with_adj(adj),
            self.wf() ==> spec.wf(),
    {
        let mut spec = self;
        spec.root.adj = adj;
        spec
    }

    /// Shift by a number of octaves.
    pub fn shift(self, octaves: isize) -> (spec: ChordSpec)
        requires
            isize::MIN <= self.root.adj + 12 * octaves <= isize::MAX,
        ensures
            spec@ == self@.shifted(octaves as int),
            self.wf() ==> spec.wf(),
    {
        let mut spec = self;
        let wide: i128 = spec.root.adj as i128 + 12 * (octaves as i128);
        spec.root.adj = wide as isize;
        spec
    }

    /// Set the inversion.
    pub fn inversion(self, inversion: usize) -> (spec: ChordSpec)
        ensures
            spec@ == self@.with_inversion(inversion),
            self.wf() ==> spec.wf(),
    {
        let mut spec = self;
        spec.inversion = inversion;
        spec
    }

    /// Tells whether every scale position in the description counts from 1.
    pub fn is_wf(&self) -> (formed: bool)
        ensures
            formed == self.wf(),
    {
        if self.root.degree < 1 {
            return false;
        }
        let mut i: usize = 0;
        while i < self.extensions.len()
            invariant
                i <= self.extensions.len(),
                forall|j: int| 0 <= j < i ==> (#[trigger] self.extensions@[j]).wf(),
            decreases self.extensions.len() - i,
        {
            if self.extensions[i].degree < 1 {
                assert(!self@.extensions[i as int].wf());
                return false;
            }
            i += 1;
        }
        let bass_formed = match &self.bass_degree {
            Some(bass) => bass.degree >= 1,
            None => true,
        };
        let key_formed = match self.rel_key {
            Some((degree, _)) => degree >= 1,
            None => true,
        };
        bass_formed && key_formed
    }

    /// Tells whether the description lies within the bounds of chord
    /// arithmetic.
    pub fn is_in_range(&self) -> (within: bool)
        ensures
            within == self.in_range(),
    {
        if !self.root.is_in_range() || self.extensions.len() > MAX_EXTENSIONS {
            return false;
        }
        let mut i: usize = 0;
        while i < self.extensions.len()
            invariant
                i <= self.extensions.len(),
                forall|j: int| 0 <= j < i ==> (#[trigger] self.extensions@[j]).in_range(),
            decreases self.extensions.len() - i,
        {
            if !self.extensions[i].is_in_range() {
                return false;
            }
            i += 1;
        }
        let bass_within = match &self.bass_degree {
            Some(bass) => bass.is_in_range(),
            None => true,
        };
        let key_within = match self.rel_key {
            Some((degree, _)) => degree >= 1,
            None => true,
        };
        bass_within && key_within
    }

    /// The intervals that make up this chord, relative to the chord's root,
    /// in integers of twice the machine's width.
    fn intervals_wide(&self) -> (intervals: Vec<i128>)
        requires
            self.wf(),
        ensures
            holds_wide(intervals@, self@.intervals()),
    {
        proof {
            lemma_intervals_wide(self@);
        }
        let offset: i128 = match self.rel_key {
            None => 0,
            Some((degree, _)) => scale_semitones(self.mode, (degree - 1) % 7) as i128,
        };
        let mode = match self.rel_key {
            None => self.mode,
            Some((_, mode)) => mode,
        };
        let mut stacked: Vec<i128> = match self.triad {
            Triad::Mode => match self.mode {
                Mode::Major => vec![0, 4, 7],
                Mode::Minor => vec![0, 3, 7],
            },
            Triad::Diminished => vec![0, 3, 6],
            Triad::Augmented => vec![0, 4, 8],
            Triad::Sus2 => vec![0, 2, 7],
            Triad::Sus4 => vec![0, 5, 7],
            Triad::Power => vec![0, 7],
        };
        let ghost base = triad_intervals(self.triad, self.mode);
        assert(holds_wide(stacked@, base));
        let mut i: usize = 0;
        while i < self.extensions.len()
            invariant
                i <= self.extensions.len(),
                self.wf(),
                mode == self@.effective_mode(),
                base == triad_intervals(self.triad, self.mode),
                stacked.len() == base.len() + i,
                forall|j: int|
                    0 <= j < stacked.len() ==> #[trigger] stacked@[j] as int == self@.stacked()[j],
            decreases self.extensions.len() - i,
        {
            let extension = self.extensions[i];
            assert(self@.extensions[i as int].wf());
            stacked.push(extension.semitones_wide(&mode));
            i += 1;
        }
        assert(holds_wide(stacked@, self@.stacked()));
        match self.bass_degree {
            Some(bass) => {
                let bass_interval = bass.semitones_wide(&mode);
                raise_below_bass(&mut stacked, bass_interval, Ghost(self@.stacked()));
            },
            None => {},
        }
        assert(holds_wide(stacked@, self@.over_bass()));
        let inverted = rotate_up_by(&stacked, self.inversion, Ghost(self@.over_bass()));
        let ghost rotated = rotate_up(self@.over_bass(), self.inversion as int);
        assert forall|j: int| 0 <= j < rotated.len() implies i128::MIN <= #[trigger] rotated[j]
            + offset <= i128::MAX by {
            assert(self@.intervals()[j] == rotated[j] + offset);
        }
        let intervals = offset_all(&inverted, offset, Ghost(rotated));
        assert(self@.intervals() =~= Seq::new(rotated.len(), |j: int| rotated[j] + offset));
        intervals
    }

    /// The chord's intervals relative to the root of the key, in integers of
    /// twice the machine's width.
    fn intervals_from_key_root_wide(&self) -> (intervals: Vec<i128>)
        requires
            self.wf(),
        ensures
            holds_wide(intervals@, self@.intervals_from_key_root()),
    {
        proof {
            lemma_intervals_wide(self@);
        }
        let offset = self.root.semitones_wide(&self.mode);
        let intervals = self.intervals_wide();
        assert forall|j: int| 0 <= j < self@.intervals().len() implies i128::MIN
            <= #[trigger] self@.intervals()[j] + offset <= i128::MAX by {
            assert(self@.intervals_from_key_root()[j] == self@.intervals()[j] + offset);
        }
        offset_all(&intervals, offset, Ghost(self@.intervals()))
    }

    /// Tells whether the chord's intervals are numbers that the machine's
    /// integers hold.
    pub fn intervals_fit(&self) -> (fit: bool)
        requires
            self.wf(),
        ensures
            fit == fits(self@.intervals()),
    {
        let wide = self.intervals_wide();
        all_fit(&wide, Ghost(self@.intervals()))
    }

    /// Tells whether the chord's intervals from the key's root are numbers
    /// that the machine's integers hold.
    pub fn intervals_from_key_root_fit(&self) -> (fit: bool)
        requires
            self.wf(),
        ensures
            fit == fits(self@.intervals_from_key_root()),
    {
        let wide = self.intervals_from_key_root_wide();
        all_fit(&wide, Ghost(self@.intervals_from_key_root()))
    }

    /// The intervals that make up this chord, relative to the chord's root.
    pub fn intervals(&self) -> (intervals: Vec<isize>)
        requires
            self.wf(),
            fits(self@.intervals()),
        ensures
            holds(intervals@, self@.intervals()),
    {
        let wide = self.intervals_wide();
        narrowed(&wide, Ghost(self@.intervals()))
    }

    /// The chord's intervals relative to the root of the key.
    pub fn intervals_from_key_root(&self) -> (intervals: Vec<isize>)
        requires
            self.wf(),
            fits(self@.intervals_from_key_root()),
        ensures
            holds(intervals@, self@.intervals_from_key_root()),
    {
        let wide = self.intervals_from_key_root_wide();
        narrowed(&wide, Ghost(self@.intervals_from_key_root()))
    }

    /// Get all possible inversions: for each interval of the chord, the
    /// chord with its bass on that interval.
    pub fn inversions(&self) -> (inversions: Vec<ChordSpec>)
        requires
            self.wf(),
        ensures
            inversions@.len() == self@.inversions().len(),
            forall|i: int|
                0 <= i < inversions@.len() ==> (#[trigger] inversions@[i])@ == self@.inversions()[i],
            forall|i: int| 0 <= i < inversions@.len() ==> (#[trigger] inversions@[i]).wf(),
            self.in_range() ==> forall|i: int|
                0 <= i < inversions@.len() ==> (#[trigger] inversions@[i]).in_range(),
    {
        let intervals = self.intervals_wide();
        let mut inversions: Vec<ChordSpec> = Vec::new();
        let mut i: usize = 0;
        while i < intervals.len()
            invariant
                i <= intervals.len(),
                self.wf(),
                holds_wide(intervals@, self@.intervals()),
                inversions.len() == i,
                forall|j: int|
                    0 <= j < i ==> (#[trigger] inversions@[j])@ == self@.inversions()[j],
                forall|j: int| 0 <= j < i ==> (#[trigger] inversions@[j]).wf(),
                self.in_range() ==> forall|j: int|
                    0 <= j < i ==> (#[trigger] inversions@[j]).in_range(),
            decreases intervals.len() - i,
        {
            let degree = degree_of_pitch(intervals[i], &self.mode);
            assert(intervals@[i as int] as int == self@.intervals()[i as int]);
            inversions.push(self.clone().bass(degree.degree, degree.adj));
            i += 1;
        }
        inversions
    }

    /// Resolve the chord into actual pitches for the given key: the root is
    /// the key's note at the root degree, the intervals are the chord's own.
    pub fn chord_for_key(&self, key: &Key) -> (chord: Chord)
        requires
            self.wf(),
            fits(self@.intervals()),
            isize::MIN <= key.spec_note(self.root) <= isize::MAX,
        ensures
            chord.root.semitones == key.spec_note(self.root),
            holds(chord.semitones(), self@.intervals()),
    {
        let root = key.note(&self.root);
        Chord::new(root, self.intervals())
    }

    /// Calculate the distance to another chord, or tell that it cannot be
    /// computed: that an interval of either chord from the key's root, or the
    /// distance, is beyond the machine's integers.
    pub fn checked_distance(&self, cs: &ChordSpec) -> (distance: Option<usize>)
        requires
            self.wf(),
            cs.wf(),
        ensures
            distance is Some == self@.measurable(cs@),
            distance is Some ==> distance->Some_0 == self@.distance(cs@),
    {
        if !self.intervals_from_key_root_fit() || !cs.intervals_from_key_root_fit() {
            return None;
        }
        let from = self.intervals_from_key_root();
        let mut to = cs.intervals_from_key_root();
        let ghost from_exact = self@.intervals_from_key_root();
        let ghost mut to_exact = cs@.intervals_from_key_root();
        let mut distance: usize = 0;
        let mut i: usize = 0;
        assert(from_exact.skip(0) =~= from_exact);
        while i < from.len() && to.len() > 0
            invariant
                i <= from.len(),
                holds(from@, from_exact),
                holds(to@, to_exact),
                distance + greedy_distance(from_exact.skip(i as int), to_exact)
                    == self@.distance(cs@),
            decreases from.len() - i,
        {
            let target = from[i];
            assert(from_exact[i as int] == target);
            assert forall|j: int| 0 <= j < to_exact.len() implies abs(
                target - #[trigger] to_exact[j],
            ) <= usize::MAX by {
                assert(to@[j] as int == to_exact[j]);
            }
            let (taken, moved) = nearest_to(target, &to, Ghost(to_exact));
            proof {
                let rest = from_exact.skip(i as int);
                assert(rest[0] == from_exact[i as int]);
                assert(rest.drop_first() =~= from_exact.skip(i + 1));
                lemma_greedy_distance_nonnegative(
                    from_exact.skip(i + 1),
                    to_exact.remove(taken as int),
                );
            }
            to.remove(taken);
            proof {
                let left = to_exact.remove(taken as int);
                assert forall|j: int| 0 <= j < left.len() implies #[trigger] to@[j] as int
                    == left[j] by {
                    if j < taken {
                        assert(to@[j] as int == to_exact[j]);
                    } else {
                        assert(to@[j] as int == to_exact[j + 1]);
                    }
                }
                to_exact = left;
            }
            if moved > usize::MAX - distance {
                return None;
            }
            distance = distance + moved;
            i += 1;
        }
        Some(distance)
    }

    /// Calculate the distance to another chord: the semitones that fingers
    /// travel when each note of this chord, in turn, moves to the nearest
    /// note of the other that is still free.
    pub fn distance(&self, cs: &ChordSpec) -> (distance: usize)
        requires
            self@.measurable(cs@),
        ensures
            distance == self@.distance(cs@),
    {
        self.checked_distance(cs).unwrap()
    }
}

/// A chord resolved to actual pitches: a root note and the intervals of the
/// chord's notes above it.
#[derive(Debug, Clone, PartialEq, Eq)]
pub struct Chord {
    pub root: Note,
    pub intervals: Vec<Interval>,
}

/// Whether a list is in ascending order.
pub open spec fn ascending(notes: Seq<Note>) -> bool {
    forall|i: int, j: int| 0 <= i <= j < notes.len() ==> notes[i].semitones <= notes[j].semitones
}

/// The order of notes by pitch.
pub open spec fn by_pitch() -> spec_fn(Note, Note) -> bool {
    |a: Note, b: Note| a.semitones <= b.semitones
}

impl Chord {
    /// The semitones of the chord's intervals, in their order.
    pub open spec fn semitones(&self) -> Seq<isize> {
        Seq::new(self.intervals@.len(), |i: int| self.intervals@[i].semitones)
    }

    /// The pitches of the chord's notes, in the order of its intervals.
    pub open spec fn pitches(&self) -> Seq<int> {
        Seq::new(self.intervals@.len(), |i: int| self.root.semitones + self.intervals@[i].semitones)
    }

    /// Every note of the chord is a pitch that the machine's integers hold.
    pub open spec fn playable(&self) -> bool {
        forall|i: int|
            0 <= i < self.intervals@.len() ==> isize::MIN <= #[trigger] self.pitches()[i]
                <= isize::MAX
    }

    /// Tells whether every note of the chord is a pitch that the machine's
    /// integers hold.
    pub fn is_playable(&self) -> (playable: bool)
        ensures
            playable == self.playable(),
    {
        let mut i: usize = 0;
        while i < self.intervals.len()
            invariant
                i <= self.intervals.len(),
                forall|j: int| 0 <= j < i ==> isize::MIN <= #[trigger] self.pitches()[j] <= isize::MAX,
            decreases self.intervals.len() - i,
        {
            let pitch: i128 = self.root.semitones as i128 + self.intervals[i].semitones as i128;
            if pitch < isize::MIN as i128 || pitch > isize::MAX as i128 {
                assert(!(isize::MIN <= self.pitches()[i as int] <= isize::MAX));
                return false;
            }
            i += 1;
        }
        true
    }

    /// A chord on `root` with the given intervals, in semitones above it.
    pub fn new(root: Note, intervals: Vec<isize>) -> (chord: Chord)
        ensures
            chord.root == root,
            chord.semitones() == intervals@,
    {
        let mut converted: Vec<Interval> = Vec::new();
        let mut i: usize = 0;
        while i < intervals.len()
            invariant
                i <= intervals.len(),
                converted.len() == i,
                forall|j: int| 0 <= j < i ==> (#[trigger] converted@[j]).semitones == intervals@[j],
            decreases intervals.len() - i,
        {
            converted.push(Interval::from(intervals[i]));
            i += 1;
        }
        let chord = Chord { root, intervals: converted };
        assert(chord.semitones() =~= intervals@);
        chord
    }

    /// The chord's notes in the order of its intervals. An interval that
    /// occurs twice gives its note twice.
    pub open spec fn sounding(&self) -> Seq<Note> {
        Seq::new(
            self.intervals@.len(),
            |i: int| Note { semitones: (self.root.semitones + self.intervals@[i].semitones) as isize },
        )
    }

    /// The chord's notes in the order of its intervals.
    fn unsorted_notes(&self) -> (notes: Vec<Note>)
        requires
            self.playable(),
        ensures
            notes@ == self.sounding(),
    {
        let mut notes: Vec<Note> = Vec::new();
        let mut i: usize = 0;
        while i < self.intervals.len()
            invariant
                i <= self.intervals.len(),
                self.playable(),
                notes.len() == i,
                forall|j: int| 0 <= j < i ==> #[trigger] notes@[j] == self.sounding()[j],
            decreases self.intervals.len() - i,
        {
            assert(isize::MIN <= self.pitches()[i as int] <= isize::MAX);
            notes.push(self.root + self.intervals[i]);
            i += 1;
        }
        assert(notes@ =~= self.sounding());
        notes
    }

    /// The chord's notes, lowest first.
    pub open spec fn sorted_notes(&self) -> Seq<Note> {
        self.sounding().sort_by(by_pitch())
    }

    /// Return the notes that make up this chord, lowest first.
    pub fn notes(&self) -> (notes: Vec<Note>)
        requires
            self.playable(),
        ensures
            notes@ == self.sorted_notes(),
            ascending(notes@),
            notes@.to_multiset() == self.sounding().to_multiset(),
            notes@.len() == self.intervals@.len(),
    {
        let mut pending = self.unsorted_notes();
        let mut notes: Vec<Note> = Vec::new();
        assert(notes@.to_multiset().add(pending@.to_multiset()) =~= self.sounding().to_multiset())
            by {
            broadcast use vstd::seq_lib::group_to_multiset_ensures;

        }
        while pending.len() > 0
            invariant
                notes@.to_multiset().add(pending@.to_multiset()) == self.sounding().to_multiset(),
                notes@.len() + pending@.len() == self.intervals@.len(),
                ascending(notes@),
                forall|i: int, j: int|
                    0 <= i < notes@.len() && 0 <= j < pending@.len() ==> notes@[i].semitones
                        <= pending@[j].semitones,
            decreases pending.len(),
        {
            let mut least: usize = 0;
            let mut j: usize = 1;
            while j < pending.len()
                invariant
                    1 <= j <= pending.len(),
                    least < j,
                    forall|k: int|
                        0 <= k < j ==> pending@[least as int].semitones
                            <= (#[trigger] pending@[k]).semitones,
                decreases pending.len() - j,
            {
                if pending[j].semitones < pending[least].semitones {
                    least = j;
                }
                j += 1;
            }
            let ghost before = pending@;
            let ghost sorted = notes@;
            let note = pending.remove(least);
            notes.push(note);
            proof {
                to_multiset_build(sorted, note);
                to_multiset_remove(before, least as int);
                broadcast use vstd::seq_lib::group_to_multiset_ensures;

                assert(before.contains(note));
                assert(notes@.to_multiset().add(pending@.to_multiset()) =~= sorted.to_multiset().add(
                    before.to_multiset(),
                ));
                assert forall|i: int, k: int|
                    0 <= i < notes@.len() && 0 <= k < pending@.len() implies notes@[i].semitones
                    <= pending@[k].semitones by {
                    if k < least {
                        assert(pending@[k] == before[k]);
                    } else {
                        assert(pending@[k] == before[k + 1]);
                    }
                }
            }
        }
        assert(pending@ =~= Seq::<Note>::empty());
        assert(notes@.to_multiset().add(pending@.to_multiset()) =~= notes@.to_multiset()) by {
            broadcast use vstd::seq_lib::group_to_multiset_ensures;

        }
        proof {
            assert(total_ordering(by_pitch()));
            assert(sorted_by(notes@, by_pitch()));
            self.sounding().lemma_sort_by_ensures(by_pitch());
            lemma_sorted_unique(notes@, self.sorted_notes(), by_pitch());
        }
        notes
    }

    /// The names of the notes that make up this chord, lowest first.
    pub fn describe_notes(&self) -> (names: Vec<String>)
        requires
            self.playable(),
        ensures
            names@.len() == self.intervals@.len(),
            self.sorted_notes().len() == self.intervals@.len(),
            forall|i: int|
                0 <= i < names@.len() ==> (#[trigger] names@[i])@ == self.sorted_notes()[i].name(),
    {
        let notes = self.notes();
        let mut names: Vec<String> = Vec::new();
        let mut i: usize = 0;
        while i < notes.len()
            invariant
                i <= notes.len(),
                names.len() == i,
                forall|j: int| 0 <= j < i ==> (#[trigger] names@[j])@ == notes@[j].name(),
            decreases notes.len() - i,
        {
            names.push(notes[i].to_string());
            i += 1;
        }
        names
    }

    /// The names of the chord's notes, lowest first.
    pub open spec fn note_names(&self) -> Seq<Seq<char>> {
        Seq::new(self.sorted_notes().len(), |i: int| self.sorted_notes()[i].name())
    }

    /// Renders the chord as the names of its notes, lowest first, parted by
    /// hyphens: "C3-E3-G3".
    pub fn to_string(&self) -> (text: String)
        requires
            self.playable(),
        ensures
            text@ == joined(self.note_names(), '-'),
    {
        let names = self.describe_notes();
        let ghost all = self.note_names();
        let mut text = String::new();
        if names.len() == 0 {
            assert(text@ =~= joined(all, '-'));
            return text;
        }
        text.append(names[0].as_str());
        assert(joined(all.take(1), '-') == all[0]) by {
            assert(all.take(1)[0] == all[0]);
        }
        assert(text@ =~= all[0]);
        let mut i: usize = 1;
        while i < names.len()
            invariant
                1 <= i <= names.len(),
                names@.len() == all.len(),
                forall|j: int| 0 <= j < names@.len() ==> (#[trigger] names@[j])@ == all[j],
                text@ == joined(all.take(i as int), '-'),
            decreases names.len() - i,
        {
            proof {
                reveal_strlit("-");
            }
            let ghost before = text@;
            text.append("-");
            assert(text@ =~= before + seq!['-']);
            text.append(names[i].as_str());
            proof {
                let grown = all.take(i + 1);
                assert(grown.drop_last() =~= all.take(i as int));
                assert(grown.last() == all[i as int]);
                assert(text@ =~= joined(grown, '-'));
            }
            i += 1;
        }
        assert(all.take(names.len() as int) =~= all);
        text
    }
}

impl ChordSpec {
    /// Tells whether two chords have the same description.
    pub fn same(&self, other: &ChordSpec) -> (same: bool)
        ensures
            same == (self@ == other@),
    {
        if !(self.root.same(&other.root) && self.mode == other.mode && self.triad == other.triad
            && self.inversion == other.inversion && self.extensions.len()
            == other.extensions.len()) {
            return false;
        }
        let bass_same = match (&self.bass_degree, &other.bass_degree) {
            (Some(a), Some(b)) => a.same(b),
            (None, None) => true,
            _ => false,
        };
        let key_same = match (self.rel_key, other.rel_key) {
            (Some((a, m)), Some((b, n))) => a == b && m == n,
            (None, None) => true,
            _ => false,
        };
        if !bass_same || !key_same {
            return false;
        }
        let mut i: usize = 0;
        while i < self.extensions.len()
            invariant
                i <= self.extensions.len(),
                self.extensions.len() == other.extensions.len(),
                forall|j: int| 0 <= j < i ==> self.extensions@[j] == other.extensions@[j],
            decreases self.extensions.len() - i,
        {
            if !self.extensions[i].same(&other.extensions[i]) {
                assert(self@.extensions[i as int] != other@.extensions[i as int]);
                return false;
            }
            i += 1;
        }
        assert(self@.extensions =~= other@.extensions);
        true
    }
}

} // verus!
