//! The random choices that generation draws.

use rand::Rng;
use vstd::prelude::*;

verus! {

/// The number of values that one random choice can take. It is the least number
/// that 1, 2, 3 and 4 all divide, so that a choice reduced modulo any number of
/// open directions is as likely to land on one direction as on another.
pub const CHOICE_RANGE: usize = 12;

/// Draws a number below `n` from the thread's random generator.
///
/// Calls `rand::Rng::gen_range` on `rand::thread_rng()` with the range `0..n`.
/// That function panics on an empty range, which `requires` leaves out, and
/// returns a member of the range. Nothing else is claimed of the number drawn.
#[verifier::external_body]
pub(crate) fn random_below(n: usize) -> (r: usize)
    requires
        n > 0,
    ensures
        r < n,
{
    rand::thread_rng().gen_range(0..n)
}

/// Draws `count` choices, each below `CHOICE_RANGE`.
pub fn draw_choices(count: usize) -> (choices: Vec<usize>)
    ensures
        choices@.len() == count,
        forall|i: int| 0 <= i < count ==> choices@[i] < CHOICE_RANGE,
{
    let mut choices = Vec::<usize>::new();
    let mut drawn: usize = 0;
    while drawn < count
        invariant
            drawn <= count,
            choices@.len() == drawn,
            forall|i: int| 0 <= i < drawn ==> choices@[i] < CHOICE_RANGE,
        decreases count - drawn,
    {
        let choice = random_below(CHOICE_RANGE);
        choices.push(choice);
        drawn += 1;
    }
    choices
}

} // verus!
