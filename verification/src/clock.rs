use vstd::prelude::*;
use crate::timing::Duration;

verus! {

/// The MIDI beat clock sends 24 ticks for each quarter note; a bar of four
/// quarters has 96.
pub const CLOCK_TICKS_PER_BAR: usize = 96;

/// What a message of the MIDI beat clock means to a player.
#[derive(Debug, Clone, Copy, PartialEq, Eq, Structural)]
pub enum ClockEvent {
    /// The clock ticked; the number counts the ticks within the bar.
    Tick(usize),
    Start,
    Stop,
}

/// A listener to the MIDI beat clock: whether the clock runs, and the tick
/// within the bar.
#[derive(Debug, Clone, Copy, PartialEq, Eq, Structural)]
pub struct ClockState {
    pub tick: usize,
    pub playing: bool,
}

/// The status byte of a clock tick.
pub const CLOCK_TICK: u8 = 248;

/// The status byte that starts the clock.
pub const CLOCK_START: u8 = 250;

/// The status byte that stops the clock.
pub const CLOCK_STOP: u8 = 252;

impl ClockState {
    /// The state of a listener after a message, and the event that the
    /// message is to the player, if it is one. Only messages of the one
    /// status byte count. A tick counts while the clock runs.
    pub open spec fn after(self, message: Seq<u8>) -> (ClockState, Option<ClockEvent>) {
        if message.len() != 1 {
            (self, None)
        } else if message[0] == CLOCK_TICK {
            if self.playing {
                let tick = if self.tick + 1 >= CLOCK_TICKS_PER_BAR {
                    0usize
                } else {
                    (self.tick + 1) as usize
                };
                (ClockState { tick, playing: true }, Some(ClockEvent::Tick(tick)))
            } else {
                (self, None)
            }
        } else if message[0] == CLOCK_START {
            (ClockState { tick: self.tick, playing: true }, Some(ClockEvent::Start))
        } else if message[0] == CLOCK_STOP {
            (ClockState { tick: self.tick, playing: false }, Some(ClockEvent::Stop))
        } else {
            (self, None)
        }
    }

    /// A listener to a clock that has not started.
    pub fn new() -> (state: ClockState)
        ensures
            state == (ClockState { tick: 0, playing: false }),
    {
        ClockState { tick: 0, playing: false }
    }

    /// Takes a message in and tells what it means.
    pub fn on_message(&mut self, message: &[u8]) -> (event: Option<ClockEvent>)
        ensures
            (*final(self), event) == old(self).after(message@),
    {
        if message.len() != 1 {
            return None;
        }
        let status = message[0];
        if status == CLOCK_TICK {
            if self.playing {
                if self.tick >= CLOCK_TICKS_PER_BAR - 1 {
                    self.tick = 0;
                } else {
                    self.tick = self.tick + 1;
                }
                Some(ClockEvent::Tick(self.tick))
            } else {
                None
            }
        } else if status == CLOCK_START {
            self.playing = true;
            Some(ClockEvent::Start)
        } else if status == CLOCK_STOP {
            self.playing = false;
            Some(ClockEvent::Stop)
        } else {
            None
        }
    }
}

impl Duration {
    /// The number of clock ticks that one tick of a grid of this resolution
    /// lasts.
    pub open spec fn spec_clock_ticks(&self) -> usize {
        match self {
            Duration::Quarter => 24,
            Duration::Eighth => 12,
            Duration::Sixteenth => 6,
            Duration::ThirtySecond => 3,
        }
    }

    /// The number of clock ticks that one tick of a grid of this resolution
    /// lasts.
    #[verifier::when_used_as_spec(spec_clock_ticks)]
    pub fn clock_ticks(&self) -> (ticks: usize)
        ensures
            ticks == self.spec_clock_ticks(),
            ticks * self.spec_ticks_per_bar() == CLOCK_TICKS_PER_BAR,
    {
        match self {
            Duration::Quarter => 24,
            Duration::Eighth => 12,
            Duration::Sixteenth => 6,
            Duration::ThirtySecond => 3,
        }
    }

    /// Tells whether a tick of the grid begins at a tick of the clock.
    pub fn begins_at(&self, clock_tick: usize) -> (begins: bool)
        ensures
            begins == (clock_tick % self.spec_clock_ticks() == 0),
    {
        clock_tick % self.clock_ticks() == 0
    }
}

} // verus!
