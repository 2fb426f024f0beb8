use vstd::prelude::*;
use crate::chord::{fits, Chord, ChordSpec, ChordSpecView};
use crate::key::Key;
use crate::timing::Duration;
use crate::voicing::{leadable, lemma_voice_led_shape, voice_lead, voice_led, views};

verus! {

/// A chord sequence on a grid of ticks. Each tick holds the chord that starts
/// there, or a rest.
#[derive(Debug)]
pub struct Progression {
    pub resolution: Duration,
    /// One element per tick; `None` is a rest.
    pub sequence: Vec<Option<ChordSpec>>,
    /// The ticks that hold a chord, in ascending order: `chord_index[0]` is
    /// the tick of the first chord.
    pub chord_index: Vec<usize>,
}

/// The descriptions in the slots of a grid.
pub open spec fn slot_views(sequence: Seq<Option<ChordSpec>>) -> Seq<Option<ChordSpecView>> {
    Seq::new(
        sequence.len(),
        |i: int|
            match sequence[i] {
                Some(chord) => Some(chord@),
                None => None,
            },
    )
}

/// The positions of the slots that hold something, in ascending order.
pub open spec fn filled<T>(slots: Seq<Option<T>>) -> Seq<int>
    decreases slots.len(),
{
    if slots.len() == 0 {
        Seq::empty()
    } else if slots.last() is Some {
        filled(slots.drop_last()).push(slots.len() - 1)
    } else {
        filled(slots.drop_last())
    }
}

/// `filled` lists exactly the positions that hold something, each once, in
/// strictly ascending order.
pub proof fn lemma_filled<T>(slots: Seq<Option<T>>)
    ensures
        filled(slots).len() <= slots.len(),
        forall|k: int|
            0 <= k < filled(slots).len() ==> 0 <= #[trigger] filled(slots)[k] < slots.len()
                && slots[filled(slots)[k]] is Some,
        forall|j: int, k: int|
            0 <= j < k < filled(slots).len() ==> filled(slots)[j] < filled(slots)[k],
        forall|i: int|
            0 <= i < slots.len() && (#[trigger] slots[i]) is Some ==> filled(slots).contains(i),
    decreases slots.len(),
{
    if slots.len() > 0 {
        let front = slots.drop_last();
        lemma_filled(front);
        let all = filled(slots);
        let before = filled(front);
        assert forall|k: int| 0 <= k < all.len() implies 0 <= #[trigger] all[k] < slots.len()
            && slots[all[k]] is Some by {
            if k < before.len() {
                assert(all[k] == before[k]);
                assert(front[before[k]] == slots[before[k]]);
            }
        }
        assert forall|j: int, k: int| 0 <= j < k < all.len() implies all[j] < all[k] by {
            assert(all[j] == before[j]);
            if k < before.len() {
                assert(all[k] == before[k]);
            }
        }
        assert forall|i: int| 0 <= i < slots.len() && (#[trigger] slots[i]) is Some implies all.contains(
            i,
        ) by {
            if i < front.len() {
                assert(front[i] == slots[i]);
                assert(before.contains(i));
                let k = choose|k: int| 0 <= k < before.len() && before[k] == i;
                assert(all[k] == i);
            } else {
                assert(all[all.len() - 1] == i);
            }
        }
    }
}

/// Putting something where something was leaves the filled positions as they
/// are.
pub proof fn lemma_filled_unchanged<T>(slots: Seq<Option<T>>, changed: Seq<Option<T>>)
    requires
        slots.len() == changed.len(),
        forall|i: int| 0 <= i < slots.len() ==> (slots[i] is Some <==> changed[i] is Some),
    ensures
        filled(slots) == filled(changed),
    decreases slots.len(),
{
    if slots.len() > 0 {
        lemma_filled_unchanged(slots.drop_last(), changed.drop_last());
    }
}

/// The filled positions before a tick are the first of all the filled
/// positions, and a filled tick comes right after them.
pub proof fn lemma_filled_before<T>(slots: Seq<Option<T>>, tick: int, upto: int)
    requires
        0 <= tick <= upto <= slots.len(),
    ensures
        filled(slots.take(tick)).len() <= filled(slots.take(upto)).len(),
        forall|k: int|
            0 <= k < filled(slots.take(tick)).len() ==> #[trigger] filled(slots.take(upto))[k]
                == filled(slots.take(tick))[k],
        tick < upto && slots[tick] is Some ==> filled(slots.take(tick)).len() < filled(
            slots.take(upto),
        ).len() && filled(slots.take(upto))[filled(slots.take(tick)).len() as int] == tick,
    decreases upto - tick,
{
    if tick < upto {
        lemma_filled_before(slots, tick, upto - 1);
        let whole = slots.take(upto);
        assert(whole.drop_last() =~= slots.take(upto - 1));
        assert(whole.last() == slots[upto - 1]);
        if upto - 1 == tick && slots[tick] is Some {
            assert(filled(whole) == filled(slots.take(tick)).push(tick));
        }
    }
}

/// The last filled position before a tick, or -1 where there is none.
pub open spec fn previous_tick<T>(slots: Seq<Option<T>>, tick: int) -> int
    decreases tick,
{
    if tick <= 0 {
        -1
    } else if slots[tick - 1] is Some {
        tick - 1
    } else {
        previous_tick(slots, tick - 1)
    }
}

/// The last filled position before a tick is filled, nothing is filled
/// between the two, and it is the last of the filled positions before the
/// tick.
pub proof fn lemma_previous_tick<T>(slots: Seq<Option<T>>, tick: int)
    requires
        0 <= tick <= slots.len(),
    ensures
        -1 <= previous_tick(slots, tick) < tick,
        previous_tick(slots, tick) >= 0 ==> slots[previous_tick(slots, tick)] is Some,
        forall|i: int| previous_tick(slots, tick) < i < tick ==> (#[trigger] slots[i]) is None,
        previous_tick(slots, tick) < 0 <==> filled(slots.take(tick)).len() == 0,
        previous_tick(slots, tick) >= 0 ==> filled(slots.take(tick)).last() == previous_tick(
            slots,
            tick,
        ),
    decreases tick,
{
    if tick > 0 {
        lemma_previous_tick(slots, tick - 1);
        let whole = slots.take(tick);
        assert(whole.drop_last() =~= slots.take(tick - 1));
        assert(whole.last() == slots[tick - 1]);
    } else {
        assert(slots.take(tick).len() == 0);
    }
}

/// The filled positions of a grid are those of its descriptions.
pub proof fn lemma_filled_views(sequence: Seq<Option<ChordSpec>>)
    ensures
        filled(slot_views(sequence)) == filled(sequence),
    decreases sequence.len(),
{
    if sequence.len() > 0 {
        lemma_filled_views(sequence.drop_last());
        assert(slot_views(sequence).drop_last() =~= slot_views(sequence.drop_last()));
    }
}

/// The chords of a grid in the order in which they are played.
pub open spec fn played(sequence: Seq<Option<ChordSpec>>) -> Seq<ChordSpecView>
    decreases sequence.len(),
{
    if sequence.len() == 0 {
        Seq::empty()
    } else {
        match sequence.last() {
            Some(chord) => played(sequence.drop_last()).push(chord@),
            None => played(sequence.drop_last()),
        }
    }
}

/// The chords played are those at the filled ticks, in the order of the
/// ticks.
pub proof fn lemma_played(sequence: Seq<Option<ChordSpec>>)
    ensures
        played(sequence).len() == filled(sequence).len(),
        forall|k: int|
            0 <= k < played(sequence).len() ==> #[trigger] played(sequence)[k]
                == sequence[filled(sequence)[k]]->Some_0@,
    decreases sequence.len(),
{
    if sequence.len() > 0 {
        let front = sequence.drop_last();
        lemma_played(front);
        lemma_filled(front);
        assert forall|k: int| 0 <= k < played(sequence).len() implies #[trigger] played(
            sequence,
        )[k] == sequence[filled(sequence)[k]]->Some_0@ by {
            if k < played(front).len() {
                assert(played(sequence)[k] == played(front)[k]);
                assert(filled(sequence)[k] == filled(front)[k]);
                assert(front[filled(front)[k]] == sequence[filled(front)[k]]);
            }
        }
    }
}

/// What a list of ticks holds, as exact integers.
pub open spec fn ticks(index: Seq<usize>) -> Seq<int> {
    Seq::new(index.len(), |i: int| index[i] as int)
}

/// Lists the ticks of a grid that hold a chord.
pub fn index_chords(sequence: &Vec<Option<ChordSpec>>) -> (index: Vec<usize>)
    ensures
        ticks(index@) == filled(sequence@),
{
    let mut index: Vec<usize> = Vec::new();
    let mut i: usize = 0;
    assert(sequence@.take(0) =~= Seq::<Option<ChordSpec>>::empty());
    assert(ticks(index@) =~= filled(sequence@.take(0)));
    while i < sequence.len()
        invariant
            i <= sequence.len(),
            ticks(index@) == filled(sequence@.take(i as int)),
        decreases sequence.len() - i,
    {
        let ghost before = ticks(index@);
        proof {
            let grown = sequence@.take(i + 1);
            assert(grown.drop_last() =~= sequence@.take(i as int));
            assert(grown.last() == sequence@[i as int]);
        }
        if sequence[i].is_some() {
            index.push(i);
            assert(ticks(index@) =~= before.push(i as int));
        }
        i += 1;
    }
    assert(sequence@.take(sequence.len() as int) =~= sequence@);
    index
}

impl Progression {
    /// The descriptions in the slots of the grid.
    pub open spec fn slots(&self) -> Seq<Option<ChordSpecView>> {
        slot_views(self.sequence@)
    }

    /// The chord index lists exactly the ticks that hold a chord, in
    /// ascending order.
    pub open spec fn wf(&self) -> bool {
        ticks(self.chord_index@) == filled(self.sequence@)
    }

    /// The chords of the grid, in the order in which they are played: those
    /// at the filled ticks, in the order of the ticks.
    pub open spec fn spec_chords(&self) -> Seq<ChordSpecView> {
        Seq::new(
            filled(self.sequence@).len(),
            |k: int| self.sequence@[filled(self.sequence@)[k]]->Some_0@,
        )
    }

    /// The chords of the grid are the chords played.
    pub proof fn lemma_spec_chords(&self)
        ensures
            self.spec_chords() == played(self.sequence@),
    {
        lemma_played(self.sequence@);
        assert(self.spec_chords() =~= played(self.sequence@));
    }

    /// A progression on a grid, with its chord index.
    pub fn new(sequence: Vec<Option<ChordSpec>>, resolution: Duration) -> (progression: Progression)
        ensures
            progression.sequence == sequence,
            progression.resolution == resolution,
            progression.wf(),
    {
        Progression { resolution, chord_index: index_chords(&sequence), sequence }
    }

    /// The number of whole bars that the grid spans.
    pub fn bars(&self) -> (bars: usize)
        ensures
            bars == self.sequence@.len() / (self.resolution.spec_ticks_per_bar() as nat),
    {
        self.sequence.len() / self.resolution.ticks_per_bar()
    }

    /// The chords in the given key can all be resolved.
    pub open spec fn resolvable(&self, key: Key) -> bool {
        forall|i: int|
            0 <= i < self.sequence@.len() && (#[trigger] self.sequence@[i]) is Some ==> {
                &&& self.sequence@[i]->Some_0.wf()
                &&& fits(self.sequence@[i]->Some_0@.intervals())
                &&& isize::MIN <= key.spec_note(self.sequence@[i]->Some_0.root) <= isize::MAX
            }
    }

    /// Tells whether the chord index lists exactly the ticks that hold a
    /// chord.
    pub fn is_wf(&self) -> (formed: bool)
        ensures
            formed == self.wf(),
    {
        let index = index_chords(&self.sequence);
        if index.len() != self.chord_index.len() {
            assert(ticks(index@).len() != ticks(self.chord_index@).len());
            return false;
        }
        let mut k: usize = 0;
        while k < index.len()
            invariant
                k <= index.len(),
                index.len() == self.chord_index.len(),
                ticks(index@) == filled(self.sequence@),
                forall|j: int| 0 <= j < k ==> index@[j] == self.chord_index@[j],
            decreases index.len() - k,
        {
            if index[k] != self.chord_index[k] {
                assert(ticks(index@)[k as int] != ticks(self.chord_index@)[k as int]);
                return false;
            }
            k += 1;
        }
        assert(ticks(index@) =~= ticks(self.chord_index@));
        true
    }

    /// Tells whether the chords in the given key can all be resolved.
    pub fn is_resolvable(&self, key: &Key) -> (resolvable: bool)
        ensures
            resolvable == self.resolvable(*key),
    {
        let mut i: usize = 0;
        while i < self.sequence.len()
            invariant
                i <= self.sequence.len(),
                forall|j: int|
                    0 <= j < i && (#[trigger] self.sequence@[j]) is Some ==> {
                        &&& self.sequence@[j]->Some_0.wf()
                        &&& fits(self.sequence@[j]->Some_0@.intervals())
                        &&& isize::MIN <= key.spec_note(self.sequence@[j]->Some_0.root)
                            <= isize::MAX
                    },
            decreases self.sequence.len() - i,
        {
            match &self.sequence[i] {
                Some(chord) => {
                    if !chord.is_wf() || !chord.intervals_fit() || !key.reaches(&chord.root) {
                        assert(self.sequence@[i as int] is Some);
                        return false;
                    }
                },
                None => {},
            }
            i += 1;
        }
        true
    }

    /// Tells whether every chord of the grid can be voiced.
    pub fn is_voiceable(&self) -> (voiceable: bool)
        ensures
            voiceable == self.voiceable(),
    {
        let mut i: usize = 0;
        while i < self.sequence.len()
            invariant
                i <= self.sequence.len(),
                forall|j: int|
                    0 <= j < i && (#[trigger] self.sequence@[j]) is Some
                        ==> self.sequence@[j]->Some_0@.voiceable(),
            decreases self.sequence.len() - i,
        {
            match &self.sequence[i] {
                Some(chord) => {
                    if !chord.is_voiceable() {
                        assert(self.sequence@[i as int] is Some);
                        return false;
                    }
                },
                None => {},
            }
            i += 1;
        }
        true
    }

    /// Resolves every chord of the grid in a key; rests stay rests.
    pub fn in_key(&self, key: &Key) -> (chords: Vec<Option<Chord>>)
        requires
            self.resolvable(*key),
        ensures
            chords@.len() == self.sequence@.len(),
            forall|i: int|
                0 <= i < chords@.len() ==> match (#[trigger] chords@[i], self.sequence@[i]) {
                    (Some(chord), Some(spec)) => chord.root.semitones == key.spec_note(spec.root)
                        && crate::chord::holds(chord.semitones(), spec@.intervals()),
                    (None, None) => true,
                    _ => false,
                },
    {
        let mut chords: Vec<Option<Chord>> = Vec::new();
        let mut i: usize = 0;
        while i < self.sequence.len()
            invariant
                i <= self.sequence.len(),
                self.resolvable(*key),
                chords@.len() == i,
                forall|j: int|
                    0 <= j < i ==> match (#[trigger] chords@[j], self.sequence@[j]) {
                        (Some(chord), Some(spec)) => chord.root.semitones == key.spec_note(
                            spec.root,
                        ) && crate::chord::holds(chord.semitones(), spec@.intervals()),
                        (None, None) => true,
                        _ => false,
                    },
            decreases self.sequence.len() - i,
        {
            match &self.sequence[i] {
                Some(spec) => {
                    assert(self.sequence@[i as int] is Some);
                    chords.push(Some(spec.chord_for_key(key)));
                },
                None => {
                    chords.push(None);
                },
            }
            i += 1;
        }
        chords
    }

    /// The chord at a position among the chords, if there are that many.
    pub fn chord(&self, chord_idx: usize) -> (chord: Option<&ChordSpec>)
        requires
            self.wf(),
        ensures
            chord_idx >= filled(self.sequence@).len() ==> chord is None,
            chord_idx < filled(self.sequence@).len() ==> chord == Some(
                &self.sequence@[filled(self.sequence@)[chord_idx as int]]->Some_0,
            ),
    {
        proof {
            lemma_filled(self.sequence@);
        }
        if chord_idx < self.chord_index.len() {
            let seq_idx = self.chord_index[chord_idx];
            assert(ticks(self.chord_index@)[chord_idx as int] == seq_idx);
            self.sequence[seq_idx].as_ref()
        } else {
            None
        }
    }

    /// The chords of the grid, in the order in which they are played.
    pub fn chords(&self) -> (chords: Vec<&ChordSpec>)
        requires
            self.wf(),
        ensures
            chords@.len() == filled(self.sequence@).len(),
            forall|k: int|
                0 <= k < chords@.len() ==> *(#[trigger] chords@[k])
                    == self.sequence@[filled(self.sequence@)[k]]->Some_0,
    {
        proof {
            lemma_filled(self.sequence@);
        }
        let mut chords: Vec<&ChordSpec> = Vec::new();
        let mut k: usize = 0;
        while k < self.chord_index.len()
            invariant
                k <= self.chord_index.len(),
                self.wf(),
                chords@.len() == k,
                forall|j: int|
                    0 <= j < filled(self.sequence@).len() ==> 0 <= #[trigger] filled(
                        self.sequence@,
                    )[j] < self.sequence@.len() && self.sequence@[filled(self.sequence@)[j]] is Some,
                forall|j: int|
                    0 <= j < k ==> *(#[trigger] chords@[j])
                        == self.sequence@[filled(self.sequence@)[j]]->Some_0,
            decreases self.chord_index.len() - k,
        {
            let seq_idx = self.chord_index[k];
            assert(ticks(self.chord_index@)[k as int] == seq_idx);
            match &self.sequence[seq_idx] {
                Some(chord) => {
                    chords.push(chord);
                },
                None => {},
            }
            k += 1;
        }
        chords
    }

    /// Replaces the chord at a position among the chords. Which ticks are
    /// rests does not change.
    pub fn set_chord(&mut self, chord_idx: usize, chord: ChordSpec)
        requires
            old(self).wf(),
            chord_idx < filled(old(self).sequence@).len(),
        ensures
            final(self).wf(),
            final(self).sequence@ == old(self).sequence@.update(
                filled(old(self).sequence@)[chord_idx as int],
                Some(chord),
            ),
            final(self).chord_index == old(self).chord_index,
            final(self).resolution == old(self).resolution,
    {
        proof {
            lemma_filled(self.sequence@);
        }
        let seq_idx = self.chord_index[chord_idx];
        assert(ticks(self.chord_index@)[chord_idx as int] == seq_idx);
        self.sequence.set(seq_idx, Some(chord));
        proof {
            lemma_filled_unchanged(old(self).sequence@, self.sequence@);
        }
    }

    /// The chord that is played before the chord at a position among the
    /// chords; before the first comes the last.
    pub fn prev_chord(&self, chord_idx: usize) -> (chord: &ChordSpec)
        requires
            self.wf(),
            filled(self.sequence@).len() > 0,
        ensures
            *chord == self.sequence@[filled(self.sequence@)[(chord_idx - 1) % (filled(
                self.sequence@,
            ).len() as int)]]->Some_0,
    {
        proof {
            lemma_filled(self.sequence@);
        }
        let count = self.chord_index.len();
        let idx: usize = if chord_idx == 0 {
            count - 1
        } else {
            (chord_idx - 1) % count
        };
        proof {
            if chord_idx == 0 {
                vstd::arithmetic::div_mod::lemma_small_mod((count - 1) as nat, count as nat);
                vstd::arithmetic::div_mod::lemma_mod_add_multiples_vanish(-1, count as int);
            }
        }
        let seq_idx = self.chord_index[idx];
        assert(ticks(self.chord_index@)[idx as int] == seq_idx);
        self.sequence[seq_idx].as_ref().unwrap()
    }

    /// Turns a tick into a rest.
    pub fn delete_chord_at(&mut self, seq_idx: usize)
        requires
            seq_idx < old(self).sequence@.len(),
        ensures
            final(self).wf(),
            final(self).sequence@ == old(self).sequence@.update(seq_idx as int, None),
            final(self).resolution == old(self).resolution,
    {
        self.sequence.set(seq_idx, None);
        self.update_chords();
    }

    /// Puts a chord at a tick.
    pub fn insert_chord_at(&mut self, seq_idx: usize, chord: ChordSpec)
        requires
            seq_idx < old(self).sequence@.len(),
        ensures
            final(self).wf(),
            final(self).sequence@ == old(self).sequence@.update(seq_idx as int, Some(chord)),
            final(self).resolution == old(self).resolution,
    {
        self.sequence.set(seq_idx, Some(chord));
        self.update_chords();
    }

    /// Recomputes the chord index from the grid.
    pub fn update_chords(&mut self)
        ensures
            final(self).wf(),
            final(self).sequence == old(self).sequence,
            final(self).resolution == old(self).resolution,
    {
        self.chord_index = index_chords(&self.sequence);
    }

    /// The number of chords before a tick: the position among the chords that
    /// a chord at that tick has or would have.
    pub fn seq_idx_to_chord_idx(&self, seq_idx: usize) -> (chord_idx: usize)
        ensures
            chord_idx == filled(
                self.sequence@.take(
                    if seq_idx < self.sequence@.len() {
                        seq_idx as int
                    } else {
                        self.sequence@.len() as int
                    },
                ),
            ).len(),
            chord_idx <= filled(self.sequence@).len(),
            seq_idx < self.sequence@.len() && self.sequence@[seq_idx as int] is Some
                ==> chord_idx < filled(self.sequence@).len() && filled(
                self.sequence@,
            )[chord_idx as int] == seq_idx,
    {
        proof {
            let tick = if seq_idx < self.sequence@.len() {
                seq_idx as int
            } else {
                self.sequence@.len() as int
            };
            lemma_filled_before(self.sequence@, tick, self.sequence@.len() as int);
            assert(self.sequence@.take(self.sequence@.len() as int) =~= self.sequence@);
        }
        let end = if seq_idx < self.sequence.len() {
            seq_idx
        } else {
            self.sequence.len()
        };
        let mut chord_idx: usize = 0;
        let mut i: usize = 0;
        assert(self.sequence@.take(0) =~= Seq::<Option<ChordSpec>>::empty());
        while i < end
            invariant
                i <= end <= self.sequence.len(),
                chord_idx <= i,
                chord_idx == filled(self.sequence@.take(i as int)).len(),
            decreases end - i,
        {
            proof {
                let grown = self.sequence@.take(i + 1);
                assert(grown.drop_last() =~= self.sequence@.take(i as int));
                assert(grown.last() == self.sequence@[i as int]);
            }
            if self.sequence[i].is_some() {
                chord_idx += 1;
            }
            i += 1;
        }
        chord_idx
    }

    /// A grid of chords that are surely voiced can be voice-led.
    pub proof fn lemma_voiceable_leadable(&self)
        requires
            self.voiceable(),
        ensures
            leadable(self.spec_chords()),
    {
        lemma_filled(self.sequence@);
        assert forall|k: int| 0 <= k < self.spec_chords().len() implies (
        #[trigger] self.spec_chords()[k]).voiceable() by {
            let tick = filled(self.sequence@)[k];
            assert(self.sequence@[tick] is Some);
        }
        crate::voicing::lemma_voiceable_leadable(self.spec_chords());
    }

    /// Every chord of the grid is surely voiced.
    pub open spec fn voiceable(&self) -> bool {
        forall|i: int|
            0 <= i < self.sequence@.len() && (#[trigger] self.sequence@[i]) is Some
                ==> self.sequence@[i]->Some_0@.voiceable()
    }

    /// Copies the grid.
    fn copy_sequence(&self) -> (copy: Vec<Option<ChordSpec>>)
        ensures
            slot_views(copy@) == self.slots(),
    {
        let mut copy: Vec<Option<ChordSpec>> = Vec::new();
        let mut i: usize = 0;
        while i < self.sequence.len()
            invariant
                i <= self.sequence.len(),
                copy@.len() == i,
                forall|j: int| 0 <= j < i ==> slot_views(copy@)[j] == self.slots()[j],
            decreases self.sequence.len() - i,
        {
            match &self.sequence[i] {
                Some(chord) => {
                    copy.push(Some(chord.clone()));
                },
                None => {
                    copy.push(None);
                },
            }
            i += 1;
        }
        assert(slot_views(copy@) =~= self.slots());
        copy
    }

    /// Returns the progression with its chords voice-led: the same grid,
    /// rests where they were, and the chords replaced, in order, by the
    /// voice-led form of their sequence.
    pub fn voice_lead(&self) -> (led: Progression)
        requires
            self.wf(),
            leadable(self.spec_chords()),
        ensures
            led.wf(),
            led.resolution == self.resolution,
            led.sequence@.len() == self.sequence@.len(),
            forall|i: int|
                0 <= i < self.sequence@.len() ==> (self.sequence@[i] is Some
                    <==> #[trigger] led.sequence@[i] is Some),
            led.spec_chords() == voice_led(self.spec_chords()),
    {
        let mut led = Progression::new(self.copy_sequence(), self.resolution);
        proof {
            lemma_filled(self.sequence@);
            lemma_filled_views(self.sequence@);
            lemma_filled_views(led.sequence@);
            assert forall|j: int| 0 <= j < self.sequence@.len() implies (self.sequence@[j] is Some
                <==> #[trigger] led.sequence@[j] is Some) by {
                assert(slot_views(led.sequence@)[j] == self.slots()[j]);
            }
        }
        let borrowed = self.chords();
        let mut chords: Vec<ChordSpec> = Vec::new();
        let mut k: usize = 0;
        while k < borrowed.len()
            invariant
                k <= borrowed.len(),
                borrowed@.len() == filled(self.sequence@).len(),
                forall|j: int|
                    0 <= j < borrowed@.len() ==> *(#[trigger] borrowed@[j])
                        == self.sequence@[filled(self.sequence@)[j]]->Some_0,
                chords@.len() == k,
                forall|j: int| 0 <= j < k ==> (#[trigger] chords@[j])@ == self.spec_chords()[j],
            decreases borrowed.len() - k,
        {
            chords.push(borrowed[k].clone());
            k += 1;
        }
        assert(views(chords@) =~= self.spec_chords());
        let voiced = voice_lead(&chords);
        let ghost target = voice_led(self.spec_chords());
        let ghost places = filled(self.sequence@);
        proof {
            lemma_voice_led_shape(self.spec_chords());
        }
        let mut i: usize = 0;
        while i < voiced.len()
            invariant
                i <= voiced.len(),
                voiced@.len() == places.len(),
                views(voiced@) == target,
                places == filled(self.sequence@),
                led.wf(),
                led.resolution == self.resolution,
                filled(led.sequence@) == places,
                led.sequence@.len() == self.sequence@.len(),
                forall|j: int|
                    0 <= j < self.sequence@.len() ==> (self.sequence@[j] is Some
                        <==> #[trigger] led.sequence@[j] is Some),
                forall|j: int|
                    0 <= j < places.len() ==> 0 <= #[trigger] places[j] < self.sequence@.len()
                        && self.sequence@[places[j]] is Some,
                forall|j: int, l: int| 0 <= j < l < places.len() ==> places[j] < places[l],
                forall|j: int| 0 <= j < i ==> led.sequence@[#[trigger] places[j]]->Some_0@ == target[j],
            decreases voiced.len() - i,
        {
            let ghost before = led.sequence@;
            assert(views(voiced@)[i as int] == voiced@[i as int]@);
            assert(self.sequence@[places[i as int]] is Some);
            assert(before[places[i as int]] is Some);
            led.set_chord(i, voiced[i].clone());
            proof {
                lemma_filled_unchanged(before, led.sequence@);
                assert forall|j: int| 0 <= j < i + 1 implies led.sequence@[#[trigger] places[j]]->Some_0@
                    == target[j] by {
                    if j < i {
                        assert(places[j] < places[i as int]);
                        assert(led.sequence@[places[j]] == before[places[j]]);
                    }
                }
            }
            i += 1;
        }
        assert(led.spec_chords() =~= target);
        led
    }
}

} // verus!
