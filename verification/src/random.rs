use vstd::prelude::*;
use rand::seq::SliceRandom;
use rand::Rng;

verus! {

/// A source of choices for the generation of progressions.
pub trait RandomSource {
    /// Draws a number from `0` up to, and not including, `bound`.
    fn below(&mut self, bound: usize) -> (value: usize)
        requires
            bound > 0,
        ensures
            value < bound,
    ;

    /// Draws one of the items of a list; from an empty list, nothing.
    fn pick<'a, T>(&mut self, items: &'a Vec<T>) -> (chosen: Option<&'a T>)
        ensures
            chosen is None <==> items@.len() == 0,
            chosen is Some ==> exists|i: int|
                0 <= i < items@.len() && *chosen->Some_0 == #[trigger] items@[i],
    ;
}

/// Draws from the thread-local generator of the `rand` crate, with
/// `Rng::gen_range` on the range from 0 up to `bound`. Of the outcome nothing
/// is known but that it lies in that range, which the crate documents; an
/// empty range, on which `gen_range` panics, is left out.
#[verifier::external_body]
fn thread_below(bound: usize) -> (value: usize)
    requires
        bound > 0,
    ensures
        value < bound,
{
    rand::thread_rng().gen_range(0..bound)
}

/// Chooses from a list with `SliceRandom::choose` of the `rand` crate, on the
/// thread-local generator. The crate documents that it returns a reference
/// to one element of the slice, or `None` if the slice is empty; which
/// element is not known.
#[verifier::external_body]
fn thread_pick<T>(items: &Vec<T>) -> (chosen: Option<&T>)
    ensures
        chosen is None <==> items@.len() == 0,
        chosen is Some ==> exists|i: int|
            0 <= i < items@.len() && *chosen->Some_0 == #[trigger] items@[i],
{
    items.choose(&mut rand::thread_rng())
}

/// The generator that the operating system seeds for each thread.
#[derive(Debug, Clone, Copy, Default)]
pub struct ThreadRandom;

impl RandomSource for ThreadRandom {
    fn below(&mut self, bound: usize) -> (value: usize) {
        thread_below(bound)
    }

    fn pick<'a, T>(&mut self, items: &'a Vec<T>) -> (chosen: Option<&'a T>) {
        thread_pick(items)
    }
}

/// A source that replays a list of numbers, over and over, each reduced to
/// the bound asked for. With an empty list it always draws 0. It chooses
/// from a list the item at the number that it draws below the list's length.
#[derive(Debug, Clone)]
pub struct Scripted {
    pub draws: Vec<usize>,
    pub position: usize,
}

impl Scripted {
    /// A source that replays the given draws from the first.
    pub fn new(draws: Vec<usize>) -> (source: Scripted)
        ensures
            source.draws == draws,
            source.position == 0,
    {
        Scripted { draws, position: 0 }
    }

    /// What the next draw below `bound` gives.
    pub open spec fn upcoming(&self, bound: usize) -> int {
        if self.draws@.len() == 0 {
            0
        } else {
            self.draws@[(self.position as int) % (self.draws@.len() as int)] as int % (bound as int)
        }
    }

    /// The position from which the draw after the next is taken.
    pub open spec fn moved_on(&self) -> int {
        if self.draws@.len() == 0 {
            self.position as int
        } else {
            (self.position as int) % (self.draws@.len() as int) + 1
        }
    }
}

impl RandomSource for Scripted {
    fn below(&mut self, bound: usize) -> (value: usize)
        ensures
            value == old(self).upcoming(bound),
            final(self).draws == old(self).draws,
            final(self).position == old(self).moved_on(),
    {
        if self.draws.len() == 0 {
            0
        } else {
            let at = self.position % self.draws.len();
            self.position = at + 1;
            self.draws[at] % bound
        }
    }

    fn pick<'a, T>(&mut self, items: &'a Vec<T>) -> (chosen: Option<&'a T>)
        ensures
            items@.len() > 0 ==> *chosen->Some_0 == items@[old(self).upcoming(items@.len() as usize)],
            final(self).draws == old(self).draws,
            final(self).position == (if items@.len() > 0 {
                old(self).moved_on()
            } else {
                old(self).position as int
            }),
    {
        if items.len() == 0 {
            None
        } else {
            let at = self.below(items.len());
            Some(&items[at])
        }
    }
}

} // verus!
