use rand::Rng;
use vstd::prelude::*;

verus! {

broadcast use vstd::seq_lib::lemma_seq_contains_after_push;

/// One of the four cardinal directions used to navigate the grid.
#[derive(Clone, Copy, PartialEq, Eq, Structural, Debug)]
pub enum Direction {
    Up,
    Down,
    Left,
    Right,
}

impl Direction {
    /// The opposite direction: the one that leads back across the same edge.
    pub open spec fn rev(self) -> Direction {
        match self {
            Direction::Up => Direction::Down,
            Direction::Down => Direction::Up,
            Direction::Left => Direction::Right,
            Direction::Right => Direction::Left,
        }
    }

    pub fn reverse(&self) -> (r: Direction)
        ensures
            r == self.rev(),
    {
        match *self {
            Direction::Up => Direction::Down,
            Direction::Down => Direction::Up,
            Direction::Left => Direction::Right,
            Direction::Right => Direction::Left,
        }
    }

    /// Whether this direction occurs in `vec`.
    pub fn vec_elem(self, vec: Vec<Direction>) -> (r: bool)
        ensures
            r == vec@.contains(self),
    {
        for i in 0..vec.len()
            invariant
                forall|k: int| 0 <= k < i ==> vec@[k] != self,
        {
            if self == vec[i] {
                return true;
            }
        }
        false
    }
}

/// Relies on rand's thread_rng and Rng::gen_range: returns a uniformly
/// distributed index below `bound`; gen_range panics only on an empty range,
/// which the precondition rules out.
#[verifier::external_body]
fn rand_below(bound: usize) -> (r: usize)
    requires
        1 <= bound,
    ensures
        r < bound,
{
    rand::thread_rng().gen_range(0..bound)
}

/// Picks a uniformly random direction that does not occur in `directions`.
/// At least one of the four directions must be missing from `directions`.
pub fn reselect_direction(directions: Vec<Direction>) -> (r: Direction)
    requires
        !(directions@.contains(Direction::Up) && directions@.contains(Direction::Down)
            && directions@.contains(Direction::Left) && directions@.contains(Direction::Right)),
    ensures
        !directions@.contains(r),
{
    let mut candidates: Vec<Direction> = Vec::new();
    if !Direction::Up.vec_elem(directions.clone()) {
        candidates.push(Direction::Up);
    }
    if !Direction::Down.vec_elem(directions.clone()) {
        candidates.push(Direction::Down);
    }
    if !Direction::Left.vec_elem(directions.clone()) {
        candidates.push(Direction::Left);
    }
    if !Direction::Right.vec_elem(directions.clone()) {
        candidates.push(Direction::Right);
    }
    proof {
        assert(candidates@.len() >= 1) by {
            if !directions@.contains(Direction::Up) {
                assert(candidates@.contains(Direction::Up));
            } else if !directions@.contains(Direction::Down) {
                assert(candidates@.contains(Direction::Down));
            } else if !directions@.contains(Direction::Left) {
                assert(candidates@.contains(Direction::Left));
            } else {
                assert(candidates@.contains(Direction::Right));
            }
        }
    }
    let i = rand_below(candidates.len());
    let r = candidates[i];
    proof {
        assert(candidates@.contains(candidates@[i as int]));
    }
    r
}

} // verus!
