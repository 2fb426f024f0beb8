use vstd::prelude::*;
use crate::chord::{
    lemma_in_range_measurable, lemma_intervals_bounded, lemma_intervals_wide, ChordSpec,
    ChordSpecView,
};

verus! {

/// The descriptions that a list of chords holds.
pub open spec fn views(chords: Seq<ChordSpec>) -> Seq<ChordSpecView> {
    Seq::new(chords.len(), |i: int| chords[i]@)
}

/// The position of the least of `values`; of several equal, the first.
pub open spec fn first_least(values: Seq<int>) -> int
    decreases values.len(),
{
    if values.len() <= 1 {
        0
    } else {
        let before = first_least(values.drop_last());
        if values.last() < values[before] {
            values.len() - 1
        } else {
            before
        }
    }
}

/// `first_least` picks a position of the list that holds its least value, and
/// the first such position.
pub proof fn lemma_first_least(values: Seq<int>)
    requires
        values.len() >= 1,
    ensures
        0 <= first_least(values) < values.len(),
        forall|j: int| 0 <= j < values.len() ==> values[first_least(values)] <= #[trigger] values[j],
        forall|j: int| 0 <= j < first_least(values) ==> values[first_least(values)] < #[trigger] values[j],
    decreases values.len(),
{
    if values.len() > 1 {
        let front = values.drop_last();
        lemma_first_least(front);
        assert(forall|j: int| 0 <= j < front.len() ==> front[j] == values[j]);
    }
}

impl ChordSpecView {
    /// A chord is surely voiced when it and its shifts by an octave either
    /// way lie within the bounds of chord arithmetic.
    pub open spec fn voiceable(self) -> bool {
        &&& self.in_range()
        &&& self.shifted(-1).in_range()
        &&& self.shifted(1).in_range()
    }

    /// The voicings among which voice leading chooses: every inversion of the
    /// chord an octave down, in place, and an octave up.
    pub open spec fn voicings(self) -> Seq<ChordSpecView> {
        self.shifted(-1).inversions() + self.shifted(0).inversions() + self.shifted(1).inversions()
    }

    /// The voicing that moves least from `previous`; of several that move
    /// equally little, the first.
    pub open spec fn led_from(self, previous: ChordSpecView) -> ChordSpecView {
        let voicings = self.voicings();
        voicings[first_least(Seq::new(voicings.len(), |i: int| voicings[i].distance(previous)))]
    }

    /// The chord can be led from the voicing before it: it is well formed,
    /// its root can be shifted by an octave either way, and the distance from
    /// each of its voicings to `previous` can be computed.
    pub open spec fn leads_from(self, previous: ChordSpecView) -> bool {
        &&& self.wf()
        &&& isize::MIN <= self.root.adj - 12
        &&& self.root.adj + 12 <= isize::MAX
        &&& forall|i: int|
            0 <= i < self.voicings().len() ==> (#[trigger] self.voicings()[i]).measurable(previous)
    }
}

/// The voice-led form of a progression: the first chord as it is, and every
/// later chord in the voicing that moves least from the voicing chosen for the
/// chord before it.
pub open spec fn voice_led(chords: Seq<ChordSpecView>) -> Seq<ChordSpecView>
    decreases chords.len(),
{
    if chords.len() <= 1 {
        chords
    } else {
        let before = voice_led(chords.drop_last());
        before.push(chords.last().led_from(before.last()))
    }
}

/// A progression can be voice-led when each chord after the first can be led
/// from the voicing chosen for the chord before it.
pub open spec fn leadable(chords: Seq<ChordSpecView>) -> bool
    decreases chords.len(),
{
    if chords.len() <= 1 {
        true
    } else {
        leadable(chords.drop_last()) && chords.last().leads_from(
            voice_led(chords.drop_last()).last(),
        )
    }
}

/// Voice leading keeps the number of chords and the first chord.
pub proof fn lemma_voice_led_shape(chords: Seq<ChordSpecView>)
    ensures
        voice_led(chords).len() == chords.len(),
        chords.len() >= 1 ==> voice_led(chords)[0] == chords[0],
    decreases chords.len(),
{
    if chords.len() > 1 {
        lemma_voice_led_shape(chords.drop_last());
    }
}

/// The beginning of a progression that can be voice-led can be voice-led.
pub proof fn lemma_leadable_prefix(chords: Seq<ChordSpecView>, count: int)
    requires
        leadable(chords),
        0 <= count <= chords.len(),
    ensures
        leadable(chords.take(count)),
    decreases chords.len(),
{
    if count < chords.len() {
        if chords.len() > 1 {
            lemma_leadable_prefix(chords.drop_last(), count);
            assert(chords.drop_last().take(count) =~= chords.take(count));
        } else {
            assert(chords.take(count).len() <= 1);
        }
    } else {
        assert(chords.take(count) =~= chords);
    }
}

/// The inversions of a chord within the bounds of chord arithmetic lie
/// within them.
pub proof fn lemma_inversions_in_range(v: ChordSpecView)
    requires
        v.in_range(),
    ensures
        v.inversions().len() >= 2,
        forall|i: int| 0 <= i < v.inversions().len() ==> (#[trigger] v.inversions()[i]).in_range(),
{
    lemma_intervals_bounded(v);
}

/// The voicings of a chord that is surely voiced lie within the bounds of
/// chord arithmetic.
pub proof fn lemma_voicings_in_range(v: ChordSpecView)
    requires
        v.voiceable(),
    ensures
        v.voicings().len() >= 6,
        forall|i: int| 0 <= i < v.voicings().len() ==> (#[trigger] v.voicings()[i]).in_range(),
{
    let lower = v.shifted(-1).inversions();
    let same = v.shifted(0).inversions();
    let upper = v.shifted(1).inversions();
    assert(v.shifted(0) == v);
    lemma_inversions_in_range(v.shifted(-1));
    lemma_inversions_in_range(v.shifted(0));
    lemma_inversions_in_range(v.shifted(1));
    assert forall|i: int| 0 <= i < v.voicings().len() implies (#[trigger] v.voicings()[i]).in_range() by {
        if i < lower.len() {
            assert(v.voicings()[i] == lower[i]);
        } else if i < lower.len() + same.len() {
            assert(v.voicings()[i] == same[i - lower.len()]);
        } else {
            assert(v.voicings()[i] == upper[i - lower.len() - same.len()]);
        }
    }
}

/// A chord that is surely voiced can be led from any chord within the bounds
/// of chord arithmetic, to a voicing within those bounds.
pub proof fn lemma_voiceable_leads(v: ChordSpecView, previous: ChordSpecView)
    requires
        v.voiceable(),
        previous.in_range(),
    ensures
        v.leads_from(previous),
        v.led_from(previous).in_range(),
{
    lemma_voicings_in_range(v);
    lemma_intervals_bounded(v);
    assert forall|i: int| 0 <= i < v.voicings().len() implies (#[trigger] v.voicings()[i]).measurable(
        previous,
    ) by {
        lemma_in_range_measurable(v.voicings()[i], previous);
    }
    let voicings = v.voicings();
    let distances = Seq::new(voicings.len(), |i: int| voicings[i].distance(previous));
    lemma_first_least(distances);
}

/// A progression of chords that are surely voiced can be voice-led, and its
/// voice-led form lies within the bounds of chord arithmetic.
pub proof fn lemma_voiceable_leadable(chords: Seq<ChordSpecView>)
    requires
        forall|i: int| 0 <= i < chords.len() ==> (#[trigger] chords[i]).voiceable(),
    ensures
        leadable(chords),
        voice_led(chords).len() == chords.len(),
        forall|i: int| 0 <= i < chords.len() ==> (#[trigger] voice_led(chords)[i]).in_range(),
    decreases chords.len(),
{
    lemma_voice_led_shape(chords);
    if chords.len() == 1 {
        assert(chords[0].voiceable());
    } else if chords.len() > 1 {
        let front = chords.drop_last();
        assert forall|i: int| 0 <= i < front.len() implies (#[trigger] front[i]).voiceable() by {
            assert(front[i] == chords[i]);
        }
        lemma_voiceable_leadable(front);
        lemma_voice_led_shape(front);
        let before = voice_led(front);
        assert(before.last() == before[front.len() - 1]);
        assert(chords.last() == chords[chords.len() - 1]);
        lemma_voiceable_leads(chords.last(), before.last());
        assert forall|i: int| 0 <= i < chords.len() implies (#[trigger] voice_led(chords)[i]).in_range() by {
            if i < front.len() {
                assert(voice_led(chords)[i] == before[i]);
            }
        }
    }
}

impl ChordSpec {
    /// Tells whether the chord is surely voiced.
    pub fn is_voiceable(&self) -> (voiceable: bool)
        ensures
            voiceable == self@.voiceable(),
    {
        self.is_in_range() && -crate::chord::MAX_ADJ + 12 <= self.root.adj && self.root.adj
            <= crate::chord::MAX_ADJ - 12
    }
}

/// Collects the voicings of a chord.
fn voicings_of(chord: &ChordSpec) -> (voicings: Vec<ChordSpec>)
    requires
        chord.wf(),
        isize::MIN <= chord.root.adj - 12,
        chord.root.adj + 12 <= isize::MAX,
    ensures
        views(voicings@) == chord@.voicings(),
        voicings@.len() >= 6,
{
    let mut voicings: Vec<ChordSpec> = Vec::new();
    let mut lower = chord.clone().shift(-1).inversions();
    let mut same = chord.clone().shift(0).inversions();
    let mut upper = chord.clone().shift(1).inversions();
    proof {
        lemma_intervals_wide(chord@.shifted(-1));
        lemma_intervals_wide(chord@.shifted(0));
        lemma_intervals_wide(chord@.shifted(1));
    }
    voicings.append(&mut lower);
    voicings.append(&mut same);
    voicings.append(&mut upper);
    assert(views(voicings@) =~= chord@.voicings());
    voicings
}

/// Chooses the voicing of `chord` that moves least from `previous`.
fn lead_from(chord: &ChordSpec, previous: &ChordSpec) -> (led: ChordSpec)
    requires
        chord@.leads_from(previous@),
    ensures
        led@ == chord@.led_from(previous@),
{
    let voicings = voicings_of(chord);
    let ghost distances = Seq::new(
        chord@.voicings().len(),
        |i: int| chord@.voicings()[i].distance(previous@),
    );
    let mut best: usize = 0;
    assert(views(voicings@)[0] == voicings@[0]@);
    assert(chord@.voicings()[0].measurable(previous@));
    let mut least: usize = voicings[0].distance(previous);
    let mut i: usize = 1;
    assert(distances.take(1).drop_last() =~= Seq::<int>::empty());
    while i < voicings.len()
        invariant
            1 <= i <= voicings.len(),
            views(voicings@) == chord@.voicings(),
            chord@.leads_from(previous@),
            distances == Seq::new(
                chord@.voicings().len(),
                |i: int| chord@.voicings()[i].distance(previous@),
            ),
            best == first_least(distances.take(i as int)),
            best < i,
            least == distances[best as int],
        decreases voicings.len() - i,
    {
        assert(views(voicings@)[i as int] == voicings@[i as int]@);
        assert(chord@.voicings()[i as int].measurable(previous@));
        let here = voicings[i].distance(previous);
        proof {
            let grown = distances.take(i + 1);
            assert(grown.drop_last() =~= distances.take(i as int));
            assert(grown.last() == distances[i as int]);
            assert(grown[best as int] == distances[best as int]);
        }
        if here < least {
            best = i;
            least = here;
        }
        i += 1;
    }
    assert(distances.take(voicings.len() as int) =~= distances);
    assert(views(voicings@)[best as int] == voicings@[best as int]@);
    voicings[best].clone()
}

/// Voice-leads a progression: the first chord stays as it is, and each later
/// chord is replaced by the inversion, in place or an octave away, that moves
/// the fewest semitones from the chord chosen before it. An empty progression
/// stays empty.
pub fn voice_lead(chords: &Vec<ChordSpec>) -> (led: Vec<ChordSpec>)
    requires
        leadable(views(chords@)),
    ensures
        views(led@) == voice_led(views(chords@)),
        led@.len() == chords@.len(),
{
    let mut led: Vec<ChordSpec> = Vec::new();
    if chords.len() == 0 {
        assert(views(led@) =~= voice_led(views(chords@)));
        return led;
    }
    led.push(chords[0].clone());
    let mut i: usize = 1;
    assert(views(led@) =~= voice_led(views(chords@).take(1)));
    while i < chords.len()
        invariant
            1 <= i <= chords.len(),
            led.len() == i,
            leadable(views(chords@)),
            views(led@) == voice_led(views(chords@).take(i as int)),
        decreases chords.len() - i,
    {
        let ghost before = views(led@);
        proof {
            let grown = views(chords@).take(i + 1);
            lemma_leadable_prefix(views(chords@), i + 1);
            assert(grown.drop_last() =~= views(chords@).take(i as int));
            assert(grown.last() == chords@[i as int]@);
            assert(before.last() == led@[i - 1]@);
        }
        let next = lead_from(&chords[i], &led[i - 1]);
        led.push(next);
        proof {
            let grown = views(chords@).take(i + 1);
            assert(views(led@) =~= before.push(next@));
        }
        i += 1;
    }
    assert(views(chords@).take(chords.len() as int) =~= views(chords@));
    led
}

} // verus!
