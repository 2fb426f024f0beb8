use vstd::prelude::*;
use crate::chord::{ChordSpec, ChordSpecView};
use crate::key::Mode;
use crate::notation::{parse_chord, ChordParseError, SpecChordParseError};
use crate::progression::{filled, lemma_previous_tick, played, previous_tick, Progression};
use crate::random::{RandomSource, ThreadRandom};
use crate::text::{chars_of, scan, span_end, CharClass};
use crate::timing::Duration;
use crate::voicing::views;
use vstd::string::StrSliceExecFns;

verus! {

/// The chords that may follow the chord with a given notation.
#[derive(Debug, Clone, PartialEq, Eq)]
pub struct Transition {
    pub name: String,
    pub next: Vec<ChordSpec>,
}

/// The example patterns of one mode, and the transitions derived from them.
/// The transitions are brought up to date by `update_transitions`.
#[derive(Debug, Clone, PartialEq, Eq)]
pub struct ModeTemplate {
    pub patterns: Vec<Vec<ChordSpec>>,
    pub transitions: Vec<Transition>,
}

/// The descriptions that a list of patterns holds.
pub open spec fn pattern_views(patterns: Seq<Vec<ChordSpec>>) -> Seq<Seq<ChordSpecView>> {
    Seq::new(patterns.len(), |p: int| views(patterns[p]@))
}

/// The chords that an occurrence of a chord in a pattern lets follow: the
/// chord itself, and its two neighbours in the pattern, which is read as a
/// ring. At the pattern's end the neighbour after comes first, elsewhere the
/// neighbour before.
pub open spec fn neighbors(pattern: Seq<ChordSpecView>, at: int) -> Seq<ChordSpecView> {
    let last = pattern.len() - 1;
    if at == 0 {
        seq![pattern[0], pattern[last], pattern[if last > 0 {
            1int
        } else {
            0int
        }]]
    } else if at == last {
        seq![pattern[at], pattern[0], pattern[at - 1]]
    } else {
        seq![pattern[at], pattern[at - 1], pattern[at + 1]]
    }
}

/// The chords that the first `upto` places of a pattern let follow the chord
/// written `name`.
pub open spec fn followers_in(pattern: Seq<ChordSpecView>, name: Seq<char>, upto: int) -> Seq<
    ChordSpecView,
>
    decreases upto,
{
    if upto <= 0 {
        Seq::empty()
    } else if pattern[upto - 1].text() == name {
        followers_in(pattern, name, upto - 1) + neighbors(pattern, upto - 1)
    } else {
        followers_in(pattern, name, upto - 1)
    }
}

/// The chords that the first `count` patterns let follow the chord written
/// `name`: what each occurrence of it lets follow, pattern by pattern and
/// place by place.
pub open spec fn followers(patterns: Seq<Seq<ChordSpecView>>, name: Seq<char>, count: int) -> Seq<
    ChordSpecView,
>
    decreases count,
{
    if count <= 0 {
        Seq::empty()
    } else {
        followers(patterns, name, count - 1) + followers_in(
            patterns[count - 1],
            name,
            patterns[count - 1].len() as int,
        )
    }
}

/// The place of the first transition at or after `from` that is named
/// `name`, or the length of the list where there is none.
pub open spec fn find(transitions: Seq<Transition>, name: Seq<char>, from: int) -> int
    decreases transitions.len() - from,
{
    if from < 0 || from >= transitions.len() {
        transitions.len() as int
    } else if transitions[from].name@ == name {
        from
    } else {
        find(transitions, name, from + 1)
    }
}

/// `find` gives the first place at or after `from` with the name, or the
/// length where no place has it.
pub proof fn lemma_find(transitions: Seq<Transition>, name: Seq<char>, from: int)
    requires
        0 <= from <= transitions.len(),
    ensures
        from <= find(transitions, name, from) <= transitions.len(),
        forall|i: int|
            from <= i < find(transitions, name, from) ==> (#[trigger] transitions[i]).name@ != name,
        find(transitions, name, from) < transitions.len() ==> transitions[find(
            transitions,
            name,
            from,
        )].name@ == name,
    decreases transitions.len() - from,
{
    if from < transitions.len() && transitions[from].name@ != name {
        lemma_find(transitions, name, from + 1);
    }
}

/// A place that has the name, after places that do not, is what `find`
/// gives.
pub proof fn lemma_find_is(transitions: Seq<Transition>, name: Seq<char>, from: int, at: int)
    requires
        0 <= from <= at <= transitions.len(),
        forall|i: int| from <= i < at ==> (#[trigger] transitions[i]).name@ != name,
        at < transitions.len() ==> transitions[at].name@ == name,
    ensures
        find(transitions, name, from) == at,
    decreases at - from,
{
    if from < at {
        lemma_find_is(transitions, name, from + 1, at);
    }
}

/// The chords listed to follow the chord written `name`: those of the first
/// transition with that name, or none.
pub open spec fn listed(transitions: Seq<Transition>, name: Seq<char>) -> Seq<ChordSpecView> {
    let at = find(transitions, name, 0);
    if at < transitions.len() {
        views(transitions[at].next@)
    } else {
        Seq::empty()
    }
}

/// Every chord of a list is well formed.
pub open spec fn all_wf(chords: Seq<ChordSpec>) -> bool {
    forall|i: int| 0 <= i < chords.len() ==> (#[trigger] chords[i]).wf()
}

/// Tells whether every chord of a list is well formed.
pub fn are_wf(chords: &Vec<ChordSpec>) -> (formed: bool)
    ensures
        formed == all_wf(chords@),
{
    let mut i: usize = 0;
    while i < chords.len()
        invariant
            i <= chords.len(),
            forall|j: int| 0 <= j < i ==> (#[trigger] chords@[j]).wf(),
        decreases chords.len() - i,
    {
        if !chords[i].is_wf() {
            return false;
        }
        i += 1;
    }
    true
}

/// Copies a list of chords.
pub fn copy_chords(chords: &Vec<ChordSpec>) -> (copy: Vec<ChordSpec>)
    ensures
        views(copy@) == views(chords@),
        copy@.len() == chords@.len(),
        forall|i: int| 0 <= i < copy@.len() ==> (#[trigger] copy@[i])@ == chords@[i]@,
{
    let mut copy: Vec<ChordSpec> = Vec::new();
    let mut i: usize = 0;
    while i < chords.len()
        invariant
            i <= chords.len(),
            copy@.len() == i,
            forall|j: int| 0 <= j < i ==> (#[trigger] copy@[j])@ == chords@[j]@,
        decreases chords.len() - i,
    {
        copy.push(chords[i].clone());
        i += 1;
    }
    assert(views(copy@) =~= views(chords@));
    copy
}

impl ModeTemplate {
    /// Every chord in the patterns and in the transitions is well formed.
    pub open spec fn wf(&self) -> bool {
        &&& forall|p: int| 0 <= p < self.patterns@.len() ==> all_wf((#[trigger] self.patterns@[p])@)
        &&& forall|t: int|
            0 <= t < self.transitions@.len() ==> all_wf((#[trigger] self.transitions@[t]).next@)
    }

    /// The chords listed to follow the chord written `name`.
    pub open spec fn next_of(&self, name: Seq<char>) -> Seq<ChordSpecView> {
        listed(self.transitions@, name)
    }

    /// The transitions are those that the patterns give.
    pub open spec fn current(&self) -> bool {
        forall|name: Seq<char>| #[trigger]
            self.next_of(name) == followers(
                pattern_views(self.patterns@),
                name,
                self.patterns@.len() as int,
            )
    }

    /// Tells whether every chord in the patterns and in the transitions is
    /// well formed.
    pub fn is_wf(&self) -> (formed: bool)
        ensures
            formed == self.wf(),
    {
        let mut p: usize = 0;
        while p < self.patterns.len()
            invariant
                p <= self.patterns.len(),
                forall|q: int| 0 <= q < p ==> all_wf((#[trigger] self.patterns@[q])@),
            decreases self.patterns.len() - p,
        {
            if !are_wf(&self.patterns[p]) {
                return false;
            }
            p += 1;
        }
        let mut t: usize = 0;
        while t < self.transitions.len()
            invariant
                t <= self.transitions.len(),
                forall|q: int| 0 <= q < self.patterns@.len() ==> all_wf((#[trigger] self.patterns@[q])@),
                forall|u: int| 0 <= u < t ==> all_wf((#[trigger] self.transitions@[u]).next@),
            decreases self.transitions.len() - t,
        {
            if !are_wf(&self.transitions[t].next) {
                return false;
            }
            t += 1;
        }
        true
    }

    /// A template of the given patterns, with no transitions yet.
    pub fn new(patterns: Vec<Vec<ChordSpec>>) -> (template: ModeTemplate)
        ensures
            template.patterns == patterns,
            template.transitions@.len() == 0,
    {
        ModeTemplate { patterns, transitions: Vec::new() }
    }

    /// Finds the transition named `name`.
    fn position(&self, name: &String) -> (at: usize)
        ensures
            at == find(self.transitions@, name@, 0),
            at <= self.transitions@.len(),
    {
        let mut at: usize = 0;
        while at < self.transitions.len()
            invariant
                at <= self.transitions.len(),
                find(self.transitions@, name@, 0) == find(self.transitions@, name@, at as int),
            decreases self.transitions.len() - at,
        {
            if self.transitions[at].name == *name {
                return at;
            }
            at += 1;
        }
        at
    }

    /// Get the chords that may follow the given chord: those gathered by
    /// `update_transitions` under the chord's notation, or none if the
    /// notation is unknown.
    pub fn next(&self, chord: &ChordSpec) -> (candidates: Vec<ChordSpec>)
        requires
            chord.wf(),
        ensures
            views(candidates@) == self.next_of(chord@.text()),
            self.wf() ==> all_wf(candidates@),
    {
        let name = chord.to_string();
        let at = self.position(&name);
        if at < self.transitions.len() {
            let candidates = copy_chords(&self.transitions[at].next);
            proof {
                if self.wf() {
                    assert(all_wf(self.transitions@[at as int].next@));
                    assert forall|i: int| 0 <= i < candidates@.len() implies (
                    #[trigger] candidates@[i]).wf() by {
                        assert(candidates@[i]@ == self.transitions@[at as int].next@[i]@);
                        assert(self.transitions@[at as int].next@[i].wf());
                    }
                }
            }
            candidates
        } else {
            let candidates: Vec<ChordSpec> = Vec::new();
            assert(views(candidates@) =~= self.next_of(chord@.text()));
            candidates
        }
    }

    /// Lists three more chords to follow the chord written `name`.
    fn record(&mut self, name: String, first: ChordSpec, second: ChordSpec, third: ChordSpec)
        requires
            first.wf(),
            second.wf(),
            third.wf(),
            forall|t: int|
                0 <= t < old(self).transitions@.len() ==> all_wf(
                    (#[trigger] old(self).transitions@[t]).next@,
                ),
        ensures
            final(self).patterns == old(self).patterns,
            forall|t: int|
                0 <= t < final(self).transitions@.len() ==> all_wf(
                    (#[trigger] final(self).transitions@[t]).next@,
                ),
            forall|other: Seq<char>|
                other != name@ ==> #[trigger] final(self).next_of(other) == old(self).next_of(other),
            final(self).next_of(name@) == old(self).next_of(name@) + seq![first@, second@, third@],
    {
        let at = self.position(&name);
        let ghost before = self.transitions@;
        let ghost added = seq![first@, second@, third@];
        proof {
            lemma_find(before, name@, 0);
        }
        if at < self.transitions.len() {
            let mut next = copy_chords(&self.transitions[at].next);
            let ghost copied = next@;
            next.push(first);
            next.push(second);
            next.push(third);
            assert(views(next@) =~= views(before[at as int].next@) + added);
            assert(all_wf(next@)) by {
                assert(all_wf(before[at as int].next@));
                assert forall|i: int| 0 <= i < next@.len() implies (#[trigger] next@[i]).wf() by {
                    if i < copied.len() {
                        assert(next@[i] == copied[i]);
                        assert(copied[i]@ == before[at as int].next@[i]@);
                        assert(before[at as int].next@[i].wf());
                    }
                }
            }
            self.transitions.set(at, Transition { name, next });
            proof {
                let after = self.transitions@;
                assert forall|other: Seq<char>| true implies find(after, other, 0) == find(
                    before,
                    other,
                    0,
                ) by {
                    lemma_find(before, other, 0);
                    lemma_find_is(after, other, 0, find(before, other, 0));
                }
                assert forall|other: Seq<char>| other != name@ implies #[trigger] self.next_of(other)
                    == old(self).next_of(other) by {
                    lemma_find(before, other, 0);
                    assert(find(after, other, 0) == find(before, other, 0));
                }
                assert(find(after, name@, 0) == find(before, name@, 0));
            }
        } else {
            let mut next: Vec<ChordSpec> = Vec::new();
            next.push(first);
            next.push(second);
            next.push(third);
            assert(views(next@) =~= added);
            self.transitions.push(Transition { name, next });
            proof {
                let after = self.transitions@;
                assert forall|other: Seq<char>| other != name@ implies #[trigger] self.next_of(other)
                    == old(self).next_of(other) by {
                    lemma_find(before, other, 0);
                    let found = find(before, other, 0);
                    if found < before.len() {
                        lemma_find_is(after, other, 0, found);
                    } else {
                        lemma_find_is(after, other, 0, after.len() as int);
                    }
                }
                lemma_find_is(after, name@, 0, before.len() as int);
                assert(self.next_of(name@) =~= old(self).next_of(name@) + added);
            }
        }
    }

    /// Update the chord transitions from the patterns. For each chord, the
    /// candidates to follow it are, for each of its occurrences in a
    /// pattern: the chord itself, the chord before it and the chord after it,
    /// the pattern being read as a ring. Chords are told apart by their
    /// notation, and the candidates of one notation accumulate over all
    /// patterns.
    #[verifier::rlimit(40)]
    pub fn update_transitions(&mut self)
        requires
            forall|p: int|
                0 <= p < old(self).patterns@.len() ==> all_wf((#[trigger] old(self).patterns@[p])@),
        ensures
            final(self).patterns == old(self).patterns,
            final(self).wf(),
            final(self).current(),
    {
        self.transitions = Vec::new();
        let ghost all = pattern_views(self.patterns@);
        let mut p: usize = 0;
        assert forall|name: Seq<char>| #[trigger] self.next_of(name) == followers(all, name, 0) by {
            assert(self.next_of(name) =~= followers(all, name, 0));
        }
        while p < self.patterns.len()
            invariant
                p <= self.patterns.len(),
                self.patterns == old(self).patterns,
                all == pattern_views(self.patterns@),
                self.wf(),
                forall|name: Seq<char>| #[trigger]
                    self.next_of(name) == followers(all, name, p as int),
            decreases self.patterns.len() - p,
        {
            let length = self.patterns[p].len();
            let ghost pattern = all[p as int];
            let mut i: usize = 0;
            assert forall|name: Seq<char>| #[trigger] self.next_of(name) == followers(
                all,
                name,
                p as int,
            ) + followers_in(pattern, name, 0) by {
                assert(followers(all, name, p as int) + followers_in(pattern, name, 0) =~= followers(
                    all,
                    name,
                    p as int,
                ));
            }
            while i < length
                invariant
                    i <= length,
                    p < self.patterns.len(),
                    length == self.patterns@[p as int]@.len(),
                    self.patterns == old(self).patterns,
                    all == pattern_views(self.patterns@),
                    pattern == all[p as int],
                    self.wf(),
                    forall|name: Seq<char>| #[trigger]
                        self.next_of(name) == followers(all, name, p as int) + followers_in(
                            pattern,
                            name,
                            i as int,
                        ),
                decreases length - i,
            {
                assert(all_wf(self.patterns@[p as int]@));
                let last = length - 1;
                let (second, third): (usize, usize) = if i == 0 {
                    (
                        last,
                        if last > 0 {
                            1
                        } else {
                            0
                        },
                    )
                } else if i == last {
                    (0, i - 1)
                } else {
                    (i - 1, i + 1)
                };
                let name = self.patterns[p][i].to_string();
                let first_chord = self.patterns[p][i].clone();
                let second_chord = self.patterns[p][second].clone();
                let third_chord = self.patterns[p][third].clone();
                let ghost before = *self;
                assert(seq![first_chord@, second_chord@, third_chord@] =~= neighbors(
                    pattern,
                    i as int,
                ));
                assert(pattern[i as int].text() == name@);
                self.record(name, first_chord, second_chord, third_chord);
                proof {
                    assert forall|other: Seq<char>| #[trigger] self.next_of(other) == followers(
                        all,
                        other,
                        p as int,
                    ) + followers_in(pattern, other, i + 1) by {
                        let so_far = followers(all, other, p as int);
                        let here = followers_in(pattern, other, i as int);
                        assert(before.next_of(other) == so_far + here);
                        if other == name@ {
                            assert(so_far + (here + neighbors(pattern, i as int)) =~= (so_far + here)
                                + neighbors(pattern, i as int));
                        }
                    }
                }
                i += 1;
            }
            p += 1;
        }
    }
}

/// The example patterns of both modes.
#[derive(Debug, Clone, PartialEq, Eq)]
pub struct ProgressionTemplate {
    pub major: ModeTemplate,
    pub minor: ModeTemplate,
}

impl ProgressionTemplate {
    /// The template of a mode.
    pub open spec fn of(&self, mode: Mode) -> ModeTemplate {
        match mode {
            Mode::Major => self.major,
            Mode::Minor => self.minor,
        }
    }

    /// Every chord in either mode's template is well formed.
    pub open spec fn wf(&self) -> bool {
        self.major.wf() && self.minor.wf()
    }

    /// A template of two modes.
    pub fn new(major: ModeTemplate, minor: ModeTemplate) -> (template: ProgressionTemplate)
        ensures
            template.major == major,
            template.minor == minor,
    {
        ProgressionTemplate { major, minor }
    }

    /// Update the chord transitions of each mode.
    pub fn update_transitions(&mut self)
        requires
            forall|p: int|
                0 <= p < old(self).major.patterns@.len() ==> all_wf(
                    (#[trigger] old(self).major.patterns@[p])@,
                ),
            forall|p: int|
                0 <= p < old(self).minor.patterns@.len() ==> all_wf(
                    (#[trigger] old(self).minor.patterns@[p])@,
                ),
        ensures
            final(self).major.patterns == old(self).major.patterns,
            final(self).minor.patterns == old(self).minor.patterns,
            final(self).wf(),
            final(self).major.current(),
            final(self).minor.current(),
    {
        self.major.update_transitions();
        self.minor.update_transitions();
    }

    /// Return the candidate chords to follow this one in the given mode.
    pub fn next(&self, chord: &ChordSpec, mode: &Mode) -> (candidates: Vec<ChordSpec>)
        requires
            chord.wf(),
        ensures
            views(candidates@) == self.of(*mode).next_of(chord@.text()),
            self.of(*mode).wf() ==> all_wf(candidates@),
    {
        match mode {
            Mode::Major => self.major.next(chord),
            Mode::Minor => self.minor.next(chord),
        }
    }
}

/// Whether one of the `width` ticks from `from` on carries a chord.
pub open spec fn sounds_within(timing: Seq<bool>, from: int, width: int) -> bool {
    exists|j: int| from <= j < from + width && #[trigger] timing[j]
}

/// What holds of every rhythm that is generated for a grid of `total` ticks:
/// it fills the grid, its first tick carries a chord, and no stretch of
/// `ticks_per_bar` ticks is without one.
pub open spec fn is_rhythm(timing: Seq<bool>, total: int, ticks_per_bar: int) -> bool {
    &&& timing.len() == total
    &&& total > 0 ==> timing[0]
    &&& forall|i: int|
        0 <= i && i + ticks_per_bar <= total ==> #[trigger] sounds_within(timing, i, ticks_per_bar)
}

/// A rhythm after a rest of a given length and the chord that ends it, as far
/// as the grid of `total` ticks has room for them.
pub open spec fn after_rest(timing: Seq<bool>, rest: int, total: int) -> Seq<bool> {
    let room = total - timing.len();
    if room <= 0 {
        timing
    } else if rest >= room {
        timing + Seq::new(room as nat, |i: int| false)
    } else {
        timing + Seq::new(rest as nat, |i: int| false) + seq![true]
    }
}

/// A rest shorter than a bar after a chord, and the chord that ends it, leave
/// no stretch of a bar without a chord.
pub proof fn lemma_after_rest(timing: Seq<bool>, rest: int, total: int, ticks_per_bar: int)
    requires
        1 <= timing.len() < total,
        timing.last(),
        0 <= rest < ticks_per_bar,
        forall|i: int|
            0 <= i && i + ticks_per_bar <= timing.len() ==> #[trigger] sounds_within(
                timing,
                i,
                ticks_per_bar,
            ),
    ensures
        timing.len() < after_rest(timing, rest, total).len() <= total,
        after_rest(timing, rest, total)[0] == timing[0],
        after_rest(timing, rest, total).len() < total ==> after_rest(timing, rest, total).last(),
        forall|i: int|
            0 <= i && i + ticks_per_bar <= after_rest(timing, rest, total).len()
                ==> #[trigger] sounds_within(after_rest(timing, rest, total), i, ticks_per_bar),
{
    let grown = after_rest(timing, rest, total);
    let latest = timing.len() - 1;
    assert(grown[latest] == timing[latest]);
    assert forall|i: int| 0 <= i && i + ticks_per_bar <= grown.len() implies #[trigger] sounds_within(
        grown,
        i,
        ticks_per_bar,
    ) by {
        if i + ticks_per_bar <= timing.len() {
            assert(sounds_within(timing, i, ticks_per_bar));
            let j = choose|j: int| i <= j < i + ticks_per_bar && #[trigger] timing[j];
            assert(grown[j] == timing[j]);
        } else if i <= latest {
            assert(grown[latest]);
        } else {
            assert(grown[grown.len() - 1]);
        }
    }
}

/// Extends a rhythm by a rest of a given length and the chord that ends it, as
/// far as the grid of `total` ticks has room for them.
pub fn rest_then_chord(timing: &mut Vec<bool>, rest: usize, total: usize)
    ensures
        final(timing)@ == after_rest(old(timing)@, rest as int, total as int),
{
    let mut rested: usize = 0;
    while rested < rest && timing.len() < total
        invariant
            rested <= rest,
            old(timing)@.len() < total ==> timing@.len() <= total,
            old(timing)@.len() >= total ==> rested == 0,
            timing@ == old(timing)@ + Seq::new(rested as nat, |i: int| false),
        decreases rest - rested,
    {
        timing.push(false);
        rested += 1;
        assert(timing@ =~= old(timing)@ + Seq::new(rested as nat, |i: int| false));
    }
    if timing.len() < total {
        timing.push(true);
        assert(timing@ =~= after_rest(old(timing)@, rest as int, total as int));
    } else {
        assert(timing@ =~= after_rest(old(timing)@, rest as int, total as int));
    }
}

/// Generates the rhythm of a progression: which ticks carry a chord. The
/// first tick does; after each chord comes a rest of a length drawn below
/// `ticks_per_bar`, then the next chord, until the grid is full.
pub fn gen_timing<R: RandomSource>(total: usize, ticks_per_bar: usize, rng: &mut R) -> (timing:
    Vec<bool>)
    requires
        ticks_per_bar > 0,
    ensures
        is_rhythm(timing@, total as int, ticks_per_bar as int),
{
    let mut timing: Vec<bool> = Vec::new();
    if total == 0 {
        return timing;
    }
    timing.push(true);
    assert forall|i: int| 0 <= i && i + ticks_per_bar <= timing.len() implies #[trigger] sounds_within(
        timing@,
        i,
        ticks_per_bar as int,
    ) by {
        assert(timing@[0]);
    }
    while timing.len() < total
        invariant
            ticks_per_bar > 0,
            1 <= timing.len() <= total,
            timing@[0],
            timing.len() < total ==> timing@.last(),
            forall|i: int|
                0 <= i && i + ticks_per_bar <= timing.len() ==> #[trigger] sounds_within(
                    timing@,
                    i,
                    ticks_per_bar as int,
                ),
        decreases total - timing.len(),
    {
        let rest = rng.below(ticks_per_bar);
        proof {
            lemma_after_rest(timing@, rest as int, total as int, ticks_per_bar as int);
        }
        rest_then_chord(&mut timing, rest, total);
    }
    timing
}

impl ModeTemplate {
    /// There is a pattern to draw from, and no pattern is empty.
    pub open spec fn has_pool(&self) -> bool {
        &&& self.patterns@.len() > 0
        &&& forall|p: int| 0 <= p < self.patterns@.len() ==> (#[trigger] self.patterns@[p])@.len() > 0
    }

    /// The chord stands somewhere in a pattern.
    pub open spec fn in_pool(&self, chord: ChordSpecView) -> bool {
        exists|p: int, i: int|
            0 <= p < self.patterns@.len() && 0 <= i < self.patterns@[p]@.len()
                && #[trigger] self.patterns@[p]@[i]@ == chord
    }

    /// Whether generation may place `chord` after `previous`: it is listed to
    /// follow it or, where nothing is listed, it is any chord of the
    /// patterns.
    pub open spec fn follows(&self, previous: ChordSpecView, chord: ChordSpecView) -> bool {
        if self.next_of(previous.text()).len() > 0 {
            self.next_of(previous.text()).contains(chord)
        } else {
            self.in_pool(chord)
        }
    }

    /// Tells whether there is a pattern to draw from and no pattern is empty.
    pub fn can_draw(&self) -> (ready: bool)
        ensures
            ready == self.has_pool(),
    {
        if self.patterns.len() == 0 {
            return false;
        }
        let mut p: usize = 0;
        while p < self.patterns.len()
            invariant
                p <= self.patterns.len(),
                forall|q: int| 0 <= q < p ==> (#[trigger] self.patterns@[q])@.len() > 0,
            decreases self.patterns.len() - p,
        {
            if self.patterns[p].len() == 0 {
                return false;
            }
            p += 1;
        }
        true
    }

    /// Draws a pattern.
    pub fn rand_pattern<R: RandomSource>(&self, rng: &mut R) -> (pattern: Vec<ChordSpec>)
        requires
            self.patterns@.len() > 0,
        ensures
            exists|p: int|
                0 <= p < self.patterns@.len() && views(pattern@) == views(
                    (#[trigger] self.patterns@[p])@,
                ),
    {
        let chosen = rng.pick(&self.patterns).unwrap();
        let pattern = copy_chords(chosen);
        let ghost p = choose|p: int| 0 <= p < self.patterns@.len() && *chosen == #[trigger] self.patterns@[p];
        assert(views(pattern@) == views(self.patterns@[p]@));
        pattern
    }

    /// Draws a chord: a pattern first, then a chord of that pattern.
    pub fn rand_chord<R: RandomSource>(&self, rng: &mut R) -> (chord: ChordSpec)
        requires
            self.has_pool(),
        ensures
            self.in_pool(chord@),
            self.wf() ==> chord.wf(),
    {
        let pattern = rng.pick(&self.patterns).unwrap();
        let ghost p = choose|p: int| 0 <= p < self.patterns@.len() && *pattern == #[trigger] self.patterns@[p];
        assert(self.patterns@[p]@.len() > 0);
        let chosen = rng.pick(pattern).unwrap();
        let ghost i = choose|i: int| 0 <= i < pattern@.len() && *chosen == #[trigger] pattern@[i];
        let chord = chosen.clone();
        assert(self.patterns@[p]@[i]@ == chord@);
        proof {
            if self.wf() {
                assert(all_wf(self.patterns@[p]@));
                assert(self.patterns@[p]@[i].wf());
            }
        }
        chord
    }

    /// Draws the chord to place after `previous`: one of those listed to
    /// follow it or, where nothing is listed, a chord drawn from the
    /// patterns.
    pub fn step<R: RandomSource>(&self, previous: &ChordSpec, rng: &mut R) -> (chord: ChordSpec)
        requires
            self.wf(),
            self.has_pool(),
            previous.wf(),
        ensures
            self.follows(previous@, chord@),
            chord.wf(),
    {
        let candidates = self.next(previous);
        match rng.pick(&candidates) {
            None => self.rand_chord(rng),
            Some(chosen) => {
                let ghost at = choose|i: int|
                    0 <= i < candidates@.len() && *chosen == #[trigger] candidates@[i];
                let chord = chosen.clone();
                assert(views(candidates@)[at] == chord@);
                assert(candidates@[at].wf());
                chord
            },
        }
    }

    /// Walks the transitions over a rhythm: the first chord is the seed, and
    /// each later chord is drawn by `step` from the chord before it.
    pub fn walk<R: RandomSource>(&self, seed: &ChordSpec, timing: &Vec<bool>, rng: &mut R) -> (sequence:
        Vec<Option<ChordSpec>>)
        requires
            self.wf(),
            self.has_pool(),
            seed.wf(),
        ensures
            sequence@.len() == timing@.len(),
            forall|i: int| 0 <= i < timing@.len() ==> (#[trigger] sequence@[i]) is Some == timing@[i],
            played(sequence@).len() > 0 ==> played(sequence@)[0] == seed@,
            forall|k: int|
                1 <= k < played(sequence@).len() ==> self.follows(
                    played(sequence@)[k - 1],
                    #[trigger] played(sequence@)[k],
                ),
    {
        let mut sequence: Vec<Option<ChordSpec>> = Vec::new();
        let mut last = seed.clone();
        let mut started = false;
        let mut i: usize = 0;
        while i < timing.len()
            invariant
                i <= timing.len(),
                self.wf(),
                self.has_pool(),
                seed.wf(),
                last.wf(),
                sequence@.len() == i,
                forall|j: int| 0 <= j < i ==> (#[trigger] sequence@[j]) is Some == timing@[j],
                started == (played(sequence@).len() > 0),
                started ==> played(sequence@)[0] == seed@ && played(sequence@).last() == last@,
                forall|k: int|
                    1 <= k < played(sequence@).len() ==> self.follows(
                        played(sequence@)[k - 1],
                        #[trigger] played(sequence@)[k],
                    ),
            decreases timing.len() - i,
        {
            let ghost before = sequence@;
            if timing[i] {
                let next = if !started {
                    seed.clone()
                } else {
                    self.step(&last, rng)
                };
                last = next.clone();
                started = true;
                sequence.push(Some(next));
                proof {
                    assert(sequence@.drop_last() =~= before);
                    assert(played(sequence@) == played(before).push(next@));
                    assert forall|k: int| 1 <= k < played(sequence@).len() implies self.follows(
                        played(sequence@)[k - 1],
                        #[trigger] played(sequence@)[k],
                    ) by {
                        if k < played(before).len() {
                            assert(played(sequence@)[k] == played(before)[k]);
                            assert(played(sequence@)[k - 1] == played(before)[k - 1]);
                        }
                    }
                }
            } else {
                sequence.push(None);
                assert(sequence@.drop_last() =~= before);
            }
            i += 1;
        }
        sequence
    }
}

impl ModeTemplate {
    /// What holds of every grid that is generated from the template: a chord
    /// stands on the first tick; every other chord stands less than a bar of
    /// rests after the chord before it, and may be placed after that chord.
    pub open spec fn generates(&self, sequence: Seq<Option<ChordSpec>>, ticks_per_bar: int) -> bool {
        forall|tick: int|
            0 <= tick < sequence.len() && (#[trigger] sequence[tick]) is Some ==> {
                let before = previous_tick(sequence, tick);
                if before < 0 {
                    tick == 0
                } else {
                    &&& sequence[before] is Some
                    &&& tick - before <= ticks_per_bar
                    &&& self.follows(sequence[before]->Some_0@, sequence[tick]->Some_0@)
                }
            }
    }
}

/// A grid whose rhythm is one that is generated, and whose chords, in the
/// order in which they are played, may each be placed after the one before,
/// is a grid as the template generates them.
pub proof fn lemma_generates(
    template: ModeTemplate,
    sequence: Seq<Option<ChordSpec>>,
    ticks_per_bar: int,
)
    requires
        is_rhythm(
            Seq::new(sequence.len(), |i: int| sequence[i] is Some),
            sequence.len() as int,
            ticks_per_bar,
        ),
        forall|k: int|
            1 <= k < played(sequence).len() ==> template.follows(
                played(sequence)[k - 1],
                #[trigger] played(sequence)[k],
            ),
    ensures
        template.generates(sequence, ticks_per_bar),
{
    let marks = Seq::new(sequence.len(), |i: int| sequence[i] is Some);
    assert forall|tick: int|
        0 <= tick < sequence.len() && (#[trigger] sequence[tick]) is Some implies {
        let before = previous_tick(sequence, tick);
        if before < 0 {
            tick == 0
        } else {
            &&& sequence[before] is Some
            &&& tick - before <= ticks_per_bar
            &&& template.follows(sequence[before]->Some_0@, sequence[tick]->Some_0@)
        }
    } by {
        let before = previous_tick(sequence, tick);
        lemma_previous_tick(sequence, tick);
        if before < 0 {
            if tick > 0 {
                assert(marks[0]);
                assert(sequence[0] is None);
            }
        } else {
            if tick - before > ticks_per_bar {
                assert(sounds_within(marks, before + 1, ticks_per_bar));
                let j = choose|j: int|
                    before + 1 <= j < before + 1 + ticks_per_bar && #[trigger] marks[j];
                assert(sequence[j] is None);
            }
            let place = filled(sequence.take(tick)).len() as int;
            crate::progression::lemma_filled_before(sequence, tick, sequence.len() as int);
            assert(sequence.take(sequence.len() as int) =~= sequence);
            crate::progression::lemma_played(sequence);
            assert(filled(sequence)[place] == tick);
            assert(filled(sequence.take(tick)).last() == filled(sequence.take(tick))[place - 1]);
            assert(filled(sequence)[place - 1] == before);
            assert(played(sequence)[place] == sequence[tick]->Some_0@);
            assert(played(sequence)[place - 1] == sequence[before]->Some_0@);
        }
    }
}

/// Where the transitions are those that the patterns give, a chord may be
/// placed after another exactly if it is among the chords that the patterns
/// let follow it or, where they let none follow, if it is any chord of the
/// patterns.
pub proof fn lemma_follows_by_patterns(
    template: ModeTemplate,
    previous: ChordSpecView,
    chord: ChordSpecView,
)
    requires
        template.current(),
    ensures
        template.follows(previous, chord) == ({
            let candidates = followers(
                pattern_views(template.patterns@),
                previous.text(),
                template.patterns@.len() as int,
            );
            if candidates.len() > 0 {
                candidates.contains(chord)
            } else {
                template.in_pool(chord)
            }
        }),
{
    assert(template.next_of(previous.text()) == followers(
        pattern_views(template.patterns@),
        previous.text(),
        template.patterns@.len() as int,
    ));
}

impl ProgressionTemplate {
    /// Borrows the template of a mode.
    pub fn template(&self, mode: &Mode) -> (template: &ModeTemplate)
        ensures
            *template == self.of(*mode),
    {
        match mode {
            Mode::Major => &self.major,
            Mode::Minor => &self.minor,
        }
    }

    /// Generate a progression that starts with the given chord, drawing from
    /// the given source. The grid has `bars` bars of the resolution's ticks;
    /// its rhythm is drawn by `gen_timing`, and its chords by a walk over the
    /// mode's transitions.
    pub fn gen_progression_from_seed_with<R: RandomSource>(
        &self,
        seed: &ChordSpec,
        mode: &Mode,
        bars: usize,
        resolution: &Duration,
        rng: &mut R,
    ) -> (progression: Progression)
        requires
            self.of(*mode).wf(),
            self.of(*mode).has_pool(),
            seed.wf(),
            bars * resolution.spec_ticks_per_bar() <= usize::MAX,
        ensures
            progression.wf(),
            progression.resolution == *resolution,
            progression.sequence@.len() == bars * resolution.spec_ticks_per_bar(),
            is_rhythm(
                Seq::new(progression.sequence@.len(), |i: int| progression.sequence@[i] is Some),
                bars * resolution.spec_ticks_per_bar(),
                resolution.spec_ticks_per_bar() as int,
            ),
            progression.sequence@.len() > 0 ==> progression.spec_chords().len() > 0
                && progression.spec_chords()[0] == seed@,
            progression.sequence@.len() > 0 ==> progression.sequence@[0] is Some
                && progression.sequence@[0]->Some_0@ == seed@,
            forall|k: int|
                1 <= k < progression.spec_chords().len() ==> self.of(*mode).follows(
                    progression.spec_chords()[k - 1],
                    #[trigger] progression.spec_chords()[k],
                ),
            self.of(*mode).generates(
                progression.sequence@,
                resolution.spec_ticks_per_bar() as int,
            ),
    {
        let ticks_per_bar = resolution.ticks_per_bar();
        let timing = gen_timing(bars * ticks_per_bar, ticks_per_bar, rng);
        let sequence = self.template(mode).walk(seed, &timing, rng);
        let progression = Progression::new(sequence, *resolution);
        proof {
            progression.lemma_spec_chords();
            let marks = Seq::new(
                progression.sequence@.len(),
                |i: int| progression.sequence@[i] is Some,
            );
            assert(marks =~= timing@);
            if progression.sequence@.len() > 0 {
                crate::progression::lemma_filled(progression.sequence@);
                crate::progression::lemma_played(progression.sequence@);
                assert(progression.sequence@[0] is Some);
                lemma_previous_tick(progression.sequence@, 1);
                crate::progression::lemma_filled_before(
                    progression.sequence@,
                    0,
                    progression.sequence@.len() as int,
                );
                assert(progression.sequence@.take(progression.sequence@.len() as int)
                    =~= progression.sequence@);
                assert(filled(progression.sequence@)[0] == 0);
            }
            lemma_generates(
                self.of(*mode),
                progression.sequence@,
                resolution.spec_ticks_per_bar() as int,
            );
        }
        progression
    }

    /// Generate a progression for the given mode from a chord drawn from its
    /// patterns, drawing from the given source.
    pub fn gen_progression_with<R: RandomSource>(
        &self,
        mode: &Mode,
        bars: usize,
        resolution: &Duration,
        rng: &mut R,
    ) -> (progression: Progression)
        requires
            self.of(*mode).wf(),
            self.of(*mode).has_pool(),
            bars * resolution.spec_ticks_per_bar() <= usize::MAX,
        ensures
            progression.wf(),
            progression.resolution == *resolution,
            progression.sequence@.len() == bars * resolution.spec_ticks_per_bar(),
            is_rhythm(
                Seq::new(progression.sequence@.len(), |i: int| progression.sequence@[i] is Some),
                bars * resolution.spec_ticks_per_bar(),
                resolution.spec_ticks_per_bar() as int,
            ),
            progression.sequence@.len() > 0 ==> progression.spec_chords().len() > 0 && self.of(
                *mode,
            ).in_pool(progression.spec_chords()[0]),
            progression.sequence@.len() > 0 ==> progression.sequence@[0] is Some && self.of(
                *mode,
            ).in_pool(progression.sequence@[0]->Some_0@),
            forall|k: int|
                1 <= k < progression.spec_chords().len() ==> self.of(*mode).follows(
                    progression.spec_chords()[k - 1],
                    #[trigger] progression.spec_chords()[k],
                ),
            self.of(*mode).generates(
                progression.sequence@,
                resolution.spec_ticks_per_bar() as int,
            ),
    {
        let seed = self.rand_chord_for_mode_with(mode, rng);
        self.gen_progression_from_seed_with(&seed, mode, bars, resolution, rng)
    }

    /// Draws a pattern of the given mode from the given source.
    pub fn rand_pattern_with<R: RandomSource>(&self, mode: &Mode, rng: &mut R) -> (pattern: Vec<
        ChordSpec,
    >)
        requires
            self.of(*mode).patterns@.len() > 0,
        ensures
            exists|p: int|
                0 <= p < self.of(*mode).patterns@.len() && views(pattern@) == views(
                    (#[trigger] self.of(*mode).patterns@[p])@,
                ),
    {
        self.template(mode).rand_pattern(rng)
    }

    /// Draws a chord of the given mode from the given source.
    pub fn rand_chord_for_mode_with<R: RandomSource>(&self, mode: &Mode, rng: &mut R) -> (chord:
        ChordSpec)
        requires
            self.of(*mode).has_pool(),
        ensures
            self.of(*mode).in_pool(chord@),
            self.of(*mode).wf() ==> chord.wf(),
    {
        self.template(mode).rand_chord(rng)
    }

    /// Generate a progression that starts with the given chord.
    pub fn gen_progression_from_seed(
        &self,
        seed: &ChordSpec,
        mode: &Mode,
        bars: usize,
        resolution: &Duration,
    ) -> (progression: Progression)
        requires
            self.of(*mode).wf(),
            self.of(*mode).has_pool(),
            seed.wf(),
            bars * resolution.spec_ticks_per_bar() <= usize::MAX,
        ensures
            progression.wf(),
            progression.resolution == *resolution,
            progression.sequence@.len() == bars * resolution.spec_ticks_per_bar(),
            is_rhythm(
                Seq::new(progression.sequence@.len(), |i: int| progression.sequence@[i] is Some),
                bars * resolution.spec_ticks_per_bar(),
                resolution.spec_ticks_per_bar() as int,
            ),
            progression.sequence@.len() > 0 ==> progression.spec_chords().len() > 0
                && progression.spec_chords()[0] == seed@,
            progression.sequence@.len() > 0 ==> progression.sequence@[0] is Some
                && progression.sequence@[0]->Some_0@ == seed@,
            forall|k: int|
                1 <= k < progression.spec_chords().len() ==> self.of(*mode).follows(
                    progression.spec_chords()[k - 1],
                    #[trigger] progression.spec_chords()[k],
                ),
            self.of(*mode).generates(
                progression.sequence@,
                resolution.spec_ticks_per_bar() as int,
            ),
    {
        let mut rng = ThreadRandom;
        self.gen_progression_from_seed_with(seed, mode, bars, resolution, &mut rng)
    }

    /// Generate a progression for the given mode.
    pub fn gen_progression(&self, mode: &Mode, bars: usize, resolution: &Duration) -> (progression:
        Progression)
        requires
            self.of(*mode).wf(),
            self.of(*mode).has_pool(),
            bars * resolution.spec_ticks_per_bar() <= usize::MAX,
        ensures
            progression.wf(),
            progression.resolution == *resolution,
            progression.sequence@.len() == bars * resolution.spec_ticks_per_bar(),
            is_rhythm(
                Seq::new(progression.sequence@.len(), |i: int| progression.sequence@[i] is Some),
                bars * resolution.spec_ticks_per_bar(),
                resolution.spec_ticks_per_bar() as int,
            ),
            progression.sequence@.len() > 0 ==> progression.spec_chords().len() > 0 && self.of(
                *mode,
            ).in_pool(progression.spec_chords()[0]),
            progression.sequence@.len() > 0 ==> progression.sequence@[0] is Some && self.of(
                *mode,
            ).in_pool(progression.sequence@[0]->Some_0@),
            forall|k: int|
                1 <= k < progression.spec_chords().len() ==> self.of(*mode).follows(
                    progression.spec_chords()[k - 1],
                    #[trigger] progression.spec_chords()[k],
                ),
            self.of(*mode).generates(
                progression.sequence@,
                resolution.spec_ticks_per_bar() as int,
            ),
    {
        let mut rng = ThreadRandom;
        self.gen_progression_with(mode, bars, resolution, &mut rng)
    }

    /// Randomly chooses a pattern of the given mode.
    pub fn rand_pattern(&self, mode: &Mode) -> (pattern: Vec<ChordSpec>)
        requires
            self.of(*mode).patterns@.len() > 0,
        ensures
            exists|p: int|
                0 <= p < self.of(*mode).patterns@.len() && views(pattern@) == views(
                    (#[trigger] self.of(*mode).patterns@[p])@,
                ),
    {
        let mut rng = ThreadRandom;
        self.rand_pattern_with(mode, &mut rng)
    }

    /// Randomly chooses a chord of the given mode.
    pub fn rand_chord_for_mode(&self, mode: &Mode) -> (chord: ChordSpec)
        requires
            self.of(*mode).has_pool(),
        ensures
            self.of(*mode).in_pool(chord@),
            self.of(*mode).wf() ==> chord.wf(),
    {
        let mut rng = ThreadRandom;
        self.rand_chord_for_mode_with(mode, &mut rng)
    }
}

/// The chords that a pattern writes, read from position `from`: notations
/// parted by single spaces. The first that is no chord fails the pattern.
pub open spec fn parse_chords(s: Seq<char>, from: int) -> Result<
    Seq<ChordSpecView>,
    SpecChordParseError,
>
    decreases s.len() - from,
{
    let end = span_end(s, CharClass::Word, from);
    match parse_chord(s.subrange(from, end)) {
        Err(error) => Err(error),
        Ok(chord) => if 0 <= from <= end < s.len() {
            match parse_chords(s, end + 1) {
                Err(error) => Err(error),
                Ok(rest) => Ok(seq![chord] + rest),
            }
        } else {
            Ok(seq![chord])
        },
    }
}

/// The result of reading the chords before a position, followed by the
/// result of reading the rest.
pub open spec fn chords_then(
    read: Seq<ChordSpecView>,
    rest: Result<Seq<ChordSpecView>, SpecChordParseError>,
) -> Result<Seq<ChordSpecView>, SpecChordParseError> {
    match rest {
        Ok(more) => Ok(read + more),
        Err(error) => Err(error),
    }
}

/// The view of the result of reading a pattern, for comparison with
/// `parse_chords`.
pub open spec fn pattern_result_view(result: Result<Vec<ChordSpec>, ChordParseError>) -> Result<
    Seq<ChordSpecView>,
    SpecChordParseError,
> {
    match result {
        Ok(chords) => Ok(views(chords@)),
        Err(error) => Err(error@),
    }
}

/// Reads a pattern written as chords parted by spaces, such as "I ii VI".
pub fn parse_pattern(line: &str) -> (result: Result<Vec<ChordSpec>, ChordParseError>)
    ensures
        pattern_result_view(result) == parse_chords(line@, 0),
        result is Ok ==> all_wf(result->Ok_0@) && result->Ok_0@.len() > 0,
{
    let chars = chars_of(line);
    let mut chords: Vec<ChordSpec> = Vec::new();
    let mut from: usize = 0;
    assert(chords_then(views(chords@), parse_chords(line@, 0)) == parse_chords(line@, 0)) by {
        match parse_chords(line@, 0) {
            Ok(more) => {
                assert(views(chords@) + more =~= more);
            },
            Err(_) => {},
        }
    }
    loop
        invariant
            chars@ == line@,
            from <= chars.len(),
            chords_then(views(chords@), parse_chords(line@, from as int)) == parse_chords(line@, 0),
            all_wf(chords@),
        decreases chars.len() - from,
    {
        let end = scan(&chars, CharClass::Word, from);
        let ghost before = views(chords@);
        let ghost item = parse_chord(line@.subrange(from as int, end as int));
        match ChordSpec::from_str(line.substring_char(from, end)) {
            Err(error) => {
                assert(item == Err::<ChordSpecView, SpecChordParseError>(error@));
                assert(parse_chords(line@, from as int) == Err::<
                    Seq<ChordSpecView>,
                    SpecChordParseError,
                >(error@));
                return Err(error);
            },
            Ok(chord) => {
                assert(item == Ok::<ChordSpecView, SpecChordParseError>(chord@));
                let ghost read = chord@;
                chords.push(chord);
                assert(views(chords@) =~= before.push(read));
                if end < chars.len() {
                    proof {
                        match parse_chords(line@, end + 1) {
                            Ok(more) => {
                                assert(parse_chords(line@, from as int) == Ok::<
                                    Seq<ChordSpecView>,
                                    SpecChordParseError,
                                >(seq![read] + more));
                                assert(before + (seq![read] + more) =~= views(chords@) + more);
                            },
                            Err(error) => {
                                assert(parse_chords(line@, from as int) == Err::<
                                    Seq<ChordSpecView>,
                                    SpecChordParseError,
                                >(error));
                            },
                        }
                    }
                    from = end + 1;
                } else {
                    proof {
                        assert(parse_chords(line@, from as int) == Ok::<
                            Seq<ChordSpecView>,
                            SpecChordParseError,
                        >(seq![read]));
                        assert(before + seq![read] =~= views(chords@));
                    }
                    return Ok(chords);
                }
            },
        }
    }
}

impl ModeTemplate {
    /// Reads a template from its patterns, each written as chords parted by
    /// spaces, and derives its transitions. The first pattern that cannot be
    /// read fails with its error.
    pub fn from_patterns(lines: &Vec<String>) -> (result: Result<ModeTemplate, ChordParseError>)
        ensures
            match result {
                Ok(template) => {
                    &&& template.wf()
                    &&& template.current()
                    &&& template.patterns@.len() == lines@.len()
                    &&& forall|p: int|
                        0 <= p < lines@.len() ==> parse_chords(lines@[p]@, 0) == Ok::<
                            Seq<ChordSpecView>,
                            SpecChordParseError,
                        >(views((#[trigger] template.patterns@[p])@))
                },
                Err(error) => exists|p: int|
                    {
                        &&& 0 <= p < lines@.len()
                        &&& #[trigger] parse_chords(lines@[p]@, 0) == Err::<
                            Seq<ChordSpecView>,
                            SpecChordParseError,
                        >(error@)
                        &&& forall|q: int| 0 <= q < p ==> (#[trigger] parse_chords(lines@[q]@, 0)) is Ok
                    },
            },
    {
        let mut patterns: Vec<Vec<ChordSpec>> = Vec::new();
        let mut p: usize = 0;
        while p < lines.len()
            invariant
                p <= lines.len(),
                patterns@.len() == p,
                forall|q: int| 0 <= q < p ==> all_wf((#[trigger] patterns@[q])@),
                forall|q: int|
                    0 <= q < p ==> parse_chords(lines@[q]@, 0) == Ok::<
                        Seq<ChordSpecView>,
                        SpecChordParseError,
                    >(views((#[trigger] patterns@[q])@)),
            decreases lines.len() - p,
        {
            match parse_pattern(lines[p].as_str()) {
                Ok(pattern) => {
                    patterns.push(pattern);
                },
                Err(error) => {
                    assert(parse_chords(lines@[p as int]@, 0) == Err::<
                        Seq<ChordSpecView>,
                        SpecChordParseError,
                    >(error@));
                    assert forall|q: int| 0 <= q < p implies (#[trigger] parse_chords(
                        lines@[q]@,
                        0,
                    )) is Ok by {
                        assert(parse_chords(lines@[q]@, 0) == Ok::<
                            Seq<ChordSpecView>,
                            SpecChordParseError,
                        >(views(patterns@[q]@)));
                    }
                    return Err(error);
                },
            }
            p += 1;
        }
        let mut template = ModeTemplate::new(patterns);
        template.update_transitions();
        Ok(template)
    }
}

} // verus!
