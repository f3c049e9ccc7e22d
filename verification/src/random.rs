//! The random source behind sideways movement.
//!
//! Lengths along a row are drawn in thousandths of a cell, so that a reach of
//! 1.3 cells is the integer 1300.

use vstd::prelude::*;
use rand::rngs::OsRng;
use rand::rngs::StdRng;
use rand::Rng;
use rand::SeedableRng;
use crate::element::is_open;
use crate::element::open_to;
use crate::element::Element;

verus! {

/// How far water reaches sideways: five cells, in thousandths.
pub const WATER_EAGERNESS: i32 = 5000;

/// How far a collapsing grain of sand reaches sideways: 1.3 cells, in
/// thousandths.
pub const SAND_EAGERNESS: i32 = 1300;

/// `StdRng` of `rand`, the generator that a source draws from. Nothing of its
/// state is visible here.
#[verifier::external_type_specification]
#[verifier::external_body]
pub struct ExStdRng(rand::rngs::StdRng);

/// `Error` of `rand`, with which the operating system refuses a seed. It is
/// only ever dropped.
#[verifier::external_type_specification]
#[verifier::external_body]
pub struct ExRandError(rand::Error);

/// `StdRng::seed_from_u64` of `rand`: a generator whose stream is fixed by
/// `seed`. Nothing is claimed of the stream.
#[verifier::external_body]
fn seed_from_u64(seed: u64) -> StdRng {
    StdRng::seed_from_u64(seed)
}

/// `StdRng::from_rng` of `rand` on `OsRng`: a generator seeded by the
/// operating system, or the error with which the system refused. Nothing is
/// claimed of which of the two comes back.
#[verifier::external_body]
fn from_os() -> Result<StdRng, rand::Error> {
    StdRng::from_rng(OsRng)
}

/// `Rng::gen_range` of `rand` on an inclusive range of `i32`. The call panics
/// on an empty range, hence the `requires`. All that is claimed of the number
/// drawn is that it lies in the range.
#[verifier::external_body]
fn gen_range(generator: &mut StdRng, low: i32, high: i32) -> (drawn: i32)
    requires
        low <= high,
    ensures
        low <= drawn <= high,
{
    generator.gen_range(low..=high)
}

/// Where sideways choices come from: a generator, or nothing. Without a
/// generator nothing ever moves sideways.
pub struct RandomSource {
    generator: Option<StdRng>,
}

impl RandomSource {
    /// Whether there is no generator to draw from.
    pub closed spec fn absent(&self) -> bool {
        self.generator is None
    }

    /// A source without a generator.
    pub fn none() -> (source: RandomSource)
        ensures
            source.absent(),
    {
        RandomSource { generator: None }
    }

    /// A source that repeats the same draws whenever it is made from the same
    /// seed.
    pub fn seeded(seed: u64) -> (source: RandomSource)
        ensures
            !source.absent(),
    {
        RandomSource { generator: Some(seed_from_u64(seed)) }
    }

    /// A source seeded by the operating system. Where the system gives no
    /// seed, the source has no generator.
    pub fn system() -> (source: RandomSource) {
        // Whether the system gives a seed is not known here. What becomes of
        // either answer is the business of `from_outcome`.
        let outcome = from_os();
        RandomSource::from_outcome(outcome)
    }

    /// Whether there is no generator to draw from.
    pub fn is_absent(&self) -> (absent: bool)
        ensures
            absent == self.absent(),
    {
        self.generator.is_none()
    }

    /// Draws a number from `low` to `high`, both included. Nothing is drawn
    /// from an empty range or without a generator.
    pub fn draw(&mut self, low: i32, high: i32) -> (drawn: Option<i32>)
        ensures
            final(self).absent() == old(self).absent(),
            drawn is Some == (!old(self).absent() && low <= high),
            drawn matches Some(value) ==> low <= value <= high,
    {
        if low > high {
            return None;
        }
        match &mut self.generator {
            Some(generator) => Some(gen_range(generator, low, high)),
            None => None,
        }
    }

    /// The generator that the source draws from, if it has one.
    pub closed spec fn generator(&self) -> Option<StdRng> {
        self.generator
    }

    /// The source that an attempt at seeding leaves behind: it draws from the
    /// generator that the attempt gave, or has no generator where the attempt
    /// failed.
    pub fn from_outcome(outcome: Result<StdRng, rand::Error>) -> (source: RandomSource)
        ensures
            source.generator() == match outcome {
                Ok(generator) => Some(generator),
                Err(_) => None,
            },
            source.absent() == outcome is Err,
    {
        match outcome {
            Ok(generator) => RandomSource { generator: Some(generator) },
            Err(_) => RandomSource { generator: None },
        }
    }
}

/// The least length that may be drawn: the whole reach to the left where the
/// left neighbour is open, nothing otherwise.
pub open spec fn reach_left(left: Option<Element>, eagerness: int) -> int {
    if is_open(left) {
        -eagerness
    } else {
        0
    }
}

/// The greatest length that may be drawn: the whole reach to the right where
/// the right neighbour is open, nothing otherwise.
pub open spec fn reach_right(right: Option<Element>, eagerness: int) -> int {
    if is_open(right) {
        eagerness
    } else {
        0
    }
}

/// The step that a drawn length amounts to: its sign.
pub open spec fn step_of(drawn: int) -> int {
    if drawn < 0 {
        -1
    } else if drawn > 0 {
        1
    } else {
        0
    }
}

/// Whether `offset` can come out of a draw between the two reaches.
pub open spec fn may_step(
    left: Option<Element>,
    right: Option<Element>,
    eagerness: int,
    offset: int,
) -> bool {
    exists|drawn: int|
        reach_left(left, eagerness) <= drawn <= reach_right(right, eagerness) && offset
            == #[trigger] step_of(drawn)
}

/// The step that a drawn length amounts to: -1 for a length to the left, 1
/// for a length to the right, 0 for no length at all.
pub fn step_from(drawn: i32) -> (offset: isize)
    ensures
        offset == step_of(drawn as int),
{
    if drawn < 0 {
        -1
    } else if drawn > 0 {
        1
    } else {
        0
    }
}

/// The least and the greatest length that may be drawn for a cell with `left`
/// and `right` beside it: the whole reach towards a side that is air or
/// water, nothing towards any other side.
pub fn reach(left: Option<Element>, right: Option<Element>, eagerness: i32) -> (span: (i32, i32))
    requires
        0 <= eagerness,
    ensures
        span.0 == reach_left(left, eagerness as int),
        span.1 == reach_right(right, eagerness as int),
{
    let min: i32 = if open_to(left) {
        -eagerness
    } else {
        0
    };
    let max: i32 = if open_to(right) {
        eagerness
    } else {
        0
    };
    (min, max)
}

/// The sideways step of a cell that gives way: one length is drawn between
/// the reach to the left and the reach to the right, and its sign is the
/// step. A side that is neither air nor water has no reach. Without a
/// generator the step is 0.
pub fn destabilize_offset(
    left: Option<Element>,
    right: Option<Element>,
    eagerness: i32,
    source: &mut RandomSource,
) -> (offset: isize)
    requires
        0 <= eagerness,
    ensures
        final(source).absent() == old(source).absent(),
        may_step(left, right, eagerness as int, offset as int),
        -1 <= offset <= 1,
        offset == -1 ==> is_open(left) && 0 < eagerness,
        offset == 1 ==> is_open(right) && 0 < eagerness,
        old(source).absent() ==> offset == 0,
{
    let (min, max) = reach(left, right, eagerness);
    let drawn: i32 = match source.draw(min, max) {
        Some(value) => value,
        None => 0,
    };
    step_from(drawn)
}

} // verus!
