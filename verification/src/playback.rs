use vstd::prelude::*;
use crate::chord::{holds, Chord, ChordSpec};
use crate::clock::ClockEvent;
use crate::key::{Key, Mode};
use crate::note::Note;
use crate::progression::Progression;
use crate::random::{RandomSource, ThreadRandom};
use crate::template::ProgressionTemplate;
use crate::timing::Duration;

verus! {

/// What a player knows while it plays a progression in a loop: where it is,
/// which part of the grid it repeats, and the parameters that the
/// progression was made with.
#[derive(Debug)]
pub struct PlaybackState {
    /// The tick that is played next, counted from the start of the clip.
    pub tick: usize,
    /// The part of the grid that is repeated: from the first tick up to, and
    /// not including, the second.
    pub clip: (usize, usize),
    pub bars: usize,
    pub key: Key,
    pub note_duration: u64,
    pub resolution: Duration,
    pub progression: Progression,
}

impl PlaybackState {
    /// The clip lies within the grid and is not empty unless the grid is, and
    /// the tick lies within the clip.
    pub open spec fn wf(&self) -> bool {
        &&& self.progression.wf()
        &&& self.clip.1 <= self.progression.sequence@.len()
        &&& if self.progression.sequence@.len() == 0 {
            self.clip.0 == 0 && self.tick == 0
        } else {
            self.clip.0 < self.clip.1 && self.tick < self.clip.1 - self.clip.0
        }
    }

    /// Tells whether the clip lies within the grid and the tick within the
    /// clip.
    pub fn is_wf(&self) -> (formed: bool)
        ensures
            formed == self.wf(),
    {
        let length = self.progression.sequence.len();
        if !self.progression.is_wf() || self.clip.1 > length {
            return false;
        }
        if length == 0 {
            self.clip.0 == 0 && self.tick == 0
        } else {
            self.clip.0 < self.clip.1 && self.tick < self.clip.1 - self.clip.0
        }
    }

    /// The state in which playing starts: two bars of eighth notes in the
    /// default key, with a progression drawn from the template, the whole of
    /// it as the clip.
    pub fn new_with<R: RandomSource>(template: &ProgressionTemplate, rng: &mut R) -> (state:
        PlaybackState)
        requires
            template.major.wf(),
            template.major.has_pool(),
        ensures
            state.wf(),
            state.tick == 0,
            state.clip == (0usize, 16usize),
            state.bars == 2,
            state.key.mode == Mode::Major,
            state.key.root == (Note { semitones: 39 }),
            state.note_duration == 5,
            state.resolution == Duration::Eighth,
            state.progression.sequence@.len() == 16,
    {
        let bars: usize = 2;
        let key = Key::default();
        let resolution = Duration::Eighth;
        let progression = template.gen_progression_with(&key.mode, bars, &resolution, rng);
        PlaybackState {
            tick: 0,
            clip: (0, progression.sequence.len()),
            bars,
            key,
            resolution,
            note_duration: 5,
            progression,
        }
    }

    /// The state in which playing starts, drawn from the thread's generator.
    pub fn new(template: &ProgressionTemplate) -> (state: PlaybackState)
        requires
            template.major.wf(),
            template.major.has_pool(),
        ensures
            state.wf(),
            state.tick == 0,
            state.clip == (0usize, 16usize),
            state.bars == 2,
            state.key.mode == Mode::Major,
            state.key.root == (Note { semitones: 39 }),
            state.note_duration == 5,
            state.resolution == Duration::Eighth,
            state.progression.sequence@.len() == 16,
    {
        let mut rng = ThreadRandom;
        PlaybackState::new_with(template, &mut rng)
    }

    /// Moves on by one tick; after the last tick of the clip comes its first.
    pub fn tick(&mut self)
        requires
            old(self).wf(),
        ensures
            final(self).wf(),
            final(self).tick == (if old(self).tick + 1 >= old(self).clip.1 - old(self).clip.0 {
                0
            } else {
                old(self).tick + 1
            }),
            final(self).clip == old(self).clip,
            final(self).progression == old(self).progression,
            final(self).key == old(self).key,
            final(self).bars == old(self).bars,
            final(self).resolution == old(self).resolution,
            final(self).note_duration == old(self).note_duration,
    {
        if self.tick + 1 >= self.clip_len() {
            self.tick = 0;
        } else {
            self.tick += 1;
        }
    }

    /// Goes back to the first tick of the clip.
    pub fn reset_tick(&mut self)
        requires
            old(self).wf(),
        ensures
            final(self).wf(),
            final(self).tick == 0,
            final(self).clip == old(self).clip,
            final(self).progression == old(self).progression,
            final(self).key == old(self).key,
            final(self).bars == old(self).bars,
            final(self).resolution == old(self).resolution,
            final(self).note_duration == old(self).note_duration,
    {
        self.tick = 0;
    }

    /// The number of ticks in the clip.
    pub fn clip_len(&self) -> (length: usize)
        requires
            self.clip.0 <= self.clip.1,
        ensures
            length == self.clip.1 - self.clip.0,
    {
        self.clip.1 - self.clip.0
    }

    /// The first tick of the clip.
    pub fn clip_start(&self) -> (start: usize)
        ensures
            start == self.clip.0,
    {
        self.clip.0
    }

    /// Makes the whole grid the clip. A tick beyond the grid goes back to
    /// the first.
    pub fn reset_clip(&mut self)
        requires
            old(self).progression.wf(),
        ensures
            final(self).wf(),
            final(self).clip == (0usize, old(self).progression.sequence@.len() as usize),
            final(self).tick == (if old(self).tick < old(self).progression.sequence@.len() {
                old(self).tick
            } else {
                0
            }),
            final(self).progression == old(self).progression,
            final(self).key == old(self).key,
            final(self).bars == old(self).bars,
            final(self).resolution == old(self).resolution,
            final(self).note_duration == old(self).note_duration,
    {
        self.clip = (0, self.progression.sequence.len());
        if self.tick >= self.progression.sequence.len() {
            self.tick = 0;
        }
    }

    /// Whether the clip is a part of the grid only.
    pub fn has_loop(&self) -> (looped: bool)
        ensures
            looped == (self.clip.0 > 0 || self.clip.1 < self.progression.sequence@.len()),
    {
        let (a, b) = self.clip;
        a > 0 || b < self.progression.sequence.len()
    }

    /// Starts the clip at a tick, if the tick lies before the clip's end.
    /// A tick of playing that no longer lies in the clip goes back to the
    /// first.
    pub fn set_clip_start(&mut self, seq_idx: usize)
        requires
            old(self).wf(),
        ensures
            final(self).wf(),
            final(self).clip == (if seq_idx < old(self).clip.1 {
                (seq_idx, old(self).clip.1)
            } else {
                old(self).clip
            }),
            final(self).tick == (if old(self).tick < final(self).clip.1 - final(self).clip.0 {
                old(self).tick
            } else {
                0
            }),
            final(self).progression == old(self).progression,
            final(self).key == old(self).key,
            final(self).bars == old(self).bars,
            final(self).resolution == old(self).resolution,
            final(self).note_duration == old(self).note_duration,
    {
        if seq_idx < self.clip.1 {
            self.clip = (seq_idx, self.clip.1);
            if self.tick >= self.clip.1 - self.clip.0 {
                self.tick = 0;
            }
        }
    }

    /// Ends the clip with a tick, if the tick lies in the grid after the
    /// clip's start. A tick of playing that no longer lies in the clip goes
    /// back to the first.
    pub fn set_clip_end(&mut self, seq_idx: usize)
        requires
            old(self).wf(),
        ensures
            final(self).wf(),
            final(self).clip == (if old(self).clip.0 < seq_idx < old(self).progression.sequence@.len() {
                (old(self).clip.0, (seq_idx + 1) as usize)
            } else {
                old(self).clip
            }),
            final(self).tick == (if old(self).tick < final(self).clip.1 - final(self).clip.0 {
                old(self).tick
            } else {
                0
            }),
            final(self).progression == old(self).progression,
            final(self).key == old(self).key,
            final(self).bars == old(self).bars,
            final(self).resolution == old(self).resolution,
            final(self).note_duration == old(self).note_duration,
    {
        if seq_idx > self.clip.0 && seq_idx < self.progression.sequence.len() {
            self.clip = (self.clip.0, seq_idx + 1);
            if self.tick >= self.clip.1 - self.clip.0 {
                self.tick = 0;
            }
        }
    }

    /// Replaces the progression; the whole of the new one is the clip.
    pub fn set_progression(&mut self, progression: Progression)
        requires
            progression.wf(),
        ensures
            final(self).wf(),
            final(self).progression == progression,
            final(self).clip == (0usize, progression.sequence@.len() as usize),
            final(self).tick == (if old(self).tick < progression.sequence@.len() {
                old(self).tick
            } else {
                0
            }),
            final(self).key == old(self).key,
            final(self).bars == old(self).bars,
            final(self).resolution == old(self).resolution,
            final(self).note_duration == old(self).note_duration,
    {
        self.progression = progression;
        self.reset_clip();
    }

    /// Whether a progression of the state's bars and resolution can be
    /// drawn from the template in the state's mode.
    pub open spec fn can_generate(&self, template: &ProgressionTemplate) -> bool {
        &&& template.of(self.key.mode).wf()
        &&& template.of(self.key.mode).has_pool()
        &&& self.bars * self.resolution.spec_ticks_per_bar() <= usize::MAX
    }

    /// Tells whether a progression can be drawn from the template.
    pub fn is_ready(&self, template: &ProgressionTemplate) -> (ready: bool)
        ensures
            ready == self.can_generate(template),
    {
        let mode_template = template.template(&self.key.mode);
        let per_bar = self.resolution.ticks_per_bar();
        assert(per_bar == 4 || per_bar == 8 || per_bar == 16 || per_bar == 32);
        mode_template.is_wf() && mode_template.can_draw() && self.bars <= usize::MAX / per_bar
    }

    /// Draws a new progression for the state's mode, bars and resolution.
    pub fn gen_progression_with<R: RandomSource>(
        &mut self,
        template: &ProgressionTemplate,
        rng: &mut R,
    )
        requires
            old(self).can_generate(template),
        ensures
            final(self).wf(),
            final(self).progression.sequence@.len() == old(self).bars * old(
                self
            ).resolution.spec_ticks_per_bar(),
            final(self).progression.resolution == old(self).resolution,
            final(self).clip == (0usize, final(self).progression.sequence@.len() as usize),
            final(self).key == old(self).key,
            final(self).bars == old(self).bars,
            final(self).resolution == old(self).resolution,
            final(self).note_duration == old(self).note_duration,
            forall|k: int|
                1 <= k < final(self).progression.spec_chords().len() ==> template.of(
                    old(self).key.mode,
                ).follows(
                    final(self).progression.spec_chords()[k - 1],
                    #[trigger] final(self).progression.spec_chords()[k],
                ),
    {
        let progression = template.gen_progression_with(
            &self.key.mode,
            self.bars,
            &self.resolution,
            rng,
        );
        self.set_progression(progression);
    }

    /// Draws a new progression from the thread's generator.
    pub fn gen_progression(&mut self, template: &ProgressionTemplate)
        requires
            old(self).can_generate(template),
        ensures
            final(self).wf(),
            final(self).progression.sequence@.len() == old(self).bars * old(
                self
            ).resolution.spec_ticks_per_bar(),
            final(self).progression.resolution == old(self).resolution,
            final(self).clip == (0usize, final(self).progression.sequence@.len() as usize),
            final(self).key == old(self).key,
            final(self).bars == old(self).bars,
            final(self).resolution == old(self).resolution,
            final(self).note_duration == old(self).note_duration,
            forall|k: int|
                1 <= k < final(self).progression.spec_chords().len() ==> template.of(
                    old(self).key.mode,
                ).follows(
                    final(self).progression.spec_chords()[k - 1],
                    #[trigger] final(self).progression.spec_chords()[k],
                ),
    {
        let mut rng = ThreadRandom;
        self.gen_progression_with(template, &mut rng);
    }

    /// Draws a new progression that starts with a given chord.
    pub fn gen_progression_from_seed_with<R: RandomSource>(
        &mut self,
        chord: &ChordSpec,
        template: &ProgressionTemplate,
        rng: &mut R,
    )
        requires
            old(self).can_generate(template),
            chord.wf(),
        ensures
            final(self).wf(),
            final(self).progression.sequence@.len() == old(self).bars * old(
                self
            ).resolution.spec_ticks_per_bar(),
            final(self).progression.sequence@.len() > 0 ==> final(
                self
            ).progression.spec_chords().len() > 0 && final(self).progression.spec_chords()[0]
                == chord@,
            final(self).progression.resolution == old(self).resolution,
            final(self).clip == (0usize, final(self).progression.sequence@.len() as usize),
            final(self).key == old(self).key,
            final(self).bars == old(self).bars,
            final(self).resolution == old(self).resolution,
            final(self).note_duration == old(self).note_duration,
            forall|k: int|
                1 <= k < final(self).progression.spec_chords().len() ==> template.of(
                    old(self).key.mode,
                ).follows(
                    final(self).progression.spec_chords()[k - 1],
                    #[trigger] final(self).progression.spec_chords()[k],
                ),
    {
        let progression = template.gen_progression_from_seed_with(
            chord,
            &self.key.mode,
            self.bars,
            &self.resolution,
            rng,
        );
        self.set_progression(progression);
    }

    /// Draws a new progression that starts with a given chord, from the
    /// thread's generator.
    pub fn gen_progression_from_seed(&mut self, chord: &ChordSpec, template: &ProgressionTemplate)
        requires
            old(self).can_generate(template),
            chord.wf(),
        ensures
            final(self).wf(),
            final(self).progression.sequence@.len() == old(self).bars * old(
                self
            ).resolution.spec_ticks_per_bar(),
            final(self).progression.sequence@.len() > 0 ==> final(
                self
            ).progression.spec_chords().len() > 0 && final(self).progression.spec_chords()[0]
                == chord@,
            final(self).progression.resolution == old(self).resolution,
            final(self).clip == (0usize, final(self).progression.sequence@.len() as usize),
            final(self).key == old(self).key,
            final(self).bars == old(self).bars,
            final(self).resolution == old(self).resolution,
            final(self).note_duration == old(self).note_duration,
            forall|k: int|
                1 <= k < final(self).progression.spec_chords().len() ==> template.of(
                    old(self).key.mode,
                ).follows(
                    final(self).progression.spec_chords()[k - 1],
                    #[trigger] final(self).progression.spec_chords()[k],
                ),
    {
        let mut rng = ThreadRandom;
        self.gen_progression_from_seed_with(chord, template, &mut rng);
    }

    /// The position in the grid of the tick that is played next.
    pub open spec fn position(&self) -> int {
        self.clip.0 + self.tick
    }

    /// Whether `sounding` is what sounds at the tick that is played next: the
    /// chord there, resolved in the key, with the duration to hold it for, or
    /// nothing at a rest.
    pub open spec fn sounds(&self, sounding: Option<(Chord, u64)>) -> bool {
        match sounding {
            Some((chord, duration)) => {
                &&& self.position() < self.progression.sequence@.len()
                &&& self.progression.sequence@[self.position()] is Some
                &&& duration == self.note_duration
                &&& chord.root.semitones == self.key.spec_note(
                    self.progression.sequence@[self.position()]->Some_0.root,
                )
                &&& holds(
                    chord.semitones(),
                    self.progression.sequence@[self.position()]->Some_0@.intervals(),
                )
            },
            None => self.position() >= self.progression.sequence@.len()
                || self.progression.sequence@[self.position()] is None,
        }
    }

    /// The chord, if any, at the tick that is played next, resolved in the
    /// key, with the duration to hold it for.
    pub fn current_chord(&self) -> (sounding: Option<(Chord, u64)>)
        requires
            self.wf(),
            self.progression.resolvable(self.key),
        ensures
            self.sounds(sounding),
    {
        if self.progression.sequence.len() == 0 {
            return None;
        }
        let i = self.tick + self.clip_start();
        match &self.progression.sequence[i] {
            Some(chord_spec) => {
                assert(self.progression.sequence@[i as int] is Some);
                Some((chord_spec.chord_for_key(&self.key), self.note_duration))
            },
            None => None,
        }
    }

    /// What the player does at an event of the clock. At a tick of the clock
    /// at which a tick of the grid begins, what is there sounds and the
    /// player moves on by one tick. When the clock stops, the player goes
    /// back to the first tick of the clip. Nothing else changes anything.
    pub fn on_clock(&mut self, event: &ClockEvent) -> (sounding: Option<(Chord, u64)>)
        requires
            old(self).wf(),
            old(self).progression.resolvable(old(self).key),
        ensures
            final(self).wf(),
            final(self).clip == old(self).clip,
            final(self).progression == old(self).progression,
            final(self).key == old(self).key,
            final(self).bars == old(self).bars,
            final(self).resolution == old(self).resolution,
            final(self).note_duration == old(self).note_duration,
            match *event {
                ClockEvent::Tick(i) => if i % old(self).resolution.spec_clock_ticks() == 0 {
                    old(self).sounds(sounding) && final(self).tick == (if old(self).tick + 1
                        >= old(self).clip.1 - old(self).clip.0 {
                        0
                    } else {
                        old(self).tick + 1
                    })
                } else {
                    sounding is None && final(self).tick == old(self).tick
                },
                ClockEvent::Stop => sounding is None && final(self).tick == 0,
                ClockEvent::Start => sounding is None && final(self).tick == old(self).tick,
            },
    {
        match event {
            ClockEvent::Tick(i) => {
                if self.resolution.begins_at(*i) {
                    let sounding = self.current_chord();
                    self.tick();
                    sounding
                } else {
                    None
                }
            },
            ClockEvent::Stop => {
                self.reset_tick();
                None
            },
            ClockEvent::Start => None,
        }
    }
}

} // verus!
