//! Configuration of an execution run, and the decision of when it stops.
//!
//! The loop itself lives outside the library, where it can sleep, draw and
//! read the keyboard; it consults [`continue_simulation`] after each
//! generation.

use vstd::prelude::*;

verus! {

/// How many generations to run.
#[derive(Clone, Copy, PartialEq, Eq, Structural, Debug)]
pub enum MaxIterationCount {
    Infinite,
    Finite(usize),
}

/// What an execution run needs to know: the rule file, whether to draw,
/// the delay between frames, and when to stop.
pub struct Conf<'a> {
    pub file_name: &'a str,
    pub with_display: bool,
    pub iteration_delay: usize,
    pub max_iteration_count: MaxIterationCount,
}

/// Whether the simulation goes on after `iteration` finished generations.
pub fn continue_simulation(iteration: usize, max_iteration_count: &MaxIterationCount) -> (r: bool)
    ensures
        r == match *max_iteration_count {
            MaxIterationCount::Infinite => true,
            MaxIterationCount::Finite(max) => iteration < max,
        },
{
    match max_iteration_count {
        MaxIterationCount::Infinite => true,
        MaxIterationCount::Finite(max) => iteration < *max,
    }
}

} // verus!
