//! What the game keeps between turns, besides the entities.

use vstd::prelude::*;
use crate::geometry::Point;

verus! {

/// Whose turn it is.
#[derive(Clone, Copy, PartialEq, Eq, Structural, Debug)]
pub enum RunState {
    AwaitingInput,
    PreRun,
    PlayerTurn,
    MonsterTurn,
}

/// The cells worth cycling through when the player looks around, in the
/// order in which they were added.
pub struct PointsOfInterest(Vec<Point>);

/// The first position at which `point` occurs, or the length if it does not.
pub open spec fn first_at(points: Seq<Point>, point: Point) -> int
    decreases points.len(),
{
    if points.len() == 0 {
        0
    } else if points[0] == point {
        0
    } else {
        1 + first_at(points.drop_first(), point)
    }
}

/// The point after `prev` in the cycle: the one that follows its first
/// occurrence, the first again after the last; the first when `prev` does
/// not occur; none when there are no points.
pub open spec fn next_after(points: Seq<Point>, prev: Point) -> Option<Point> {
    if points.len() == 0 {
        None
    } else if first_at(points, prev) < points.len() {
        Some(points[(first_at(points, prev) + 1) % (points.len() as int)])
    } else {
        Some(points[0])
    }
}

/// `first_at` is where the point first occurs.
pub proof fn lemma_first_at(points: Seq<Point>, point: Point)
    ensures
        0 <= first_at(points, point) <= points.len(),
        first_at(points, point) < points.len() ==> points[first_at(points, point)] == point,
        forall|k: int| 0 <= k < first_at(points, point) ==> points[k] != point,
    decreases points.len(),
{
    if points.len() > 0 && points[0] != point {
        let rest = points.drop_first();
        lemma_first_at(rest, point);
        assert forall|k: int| 0 <= k < first_at(points, point) implies points[k] != point by {
            if k > 0 {
                assert(points[k] == rest[k - 1]);
            }
        }
    }
}

/// A position before which the point does not occur, and at which it
/// does, is `first_at`.
pub proof fn lemma_first_at_is(points: Seq<Point>, point: Point, at: int)
    requires
        0 <= at <= points.len(),
        forall|k: int| 0 <= k < at ==> points[k] != point,
        at < points.len() ==> points[at] == point,
    ensures
        first_at(points, point) == at,
{
    lemma_first_at(points, point);
    let found = first_at(points, point);
    if found < at {
        assert(points[found] == point);
    } else if at < found {
        assert(points[at] != point);
    }
}

impl PointsOfInterest {
    /// The points, in the order in which they were added.
    pub closed spec fn view(&self) -> Seq<Point> {
        self.0@
    }

    /// No points.
    pub fn new() -> (points: PointsOfInterest)
        ensures
            points.view() == Seq::<Point>::empty(),
    {
        PointsOfInterest(Vec::new())
    }

    /// Forgets every point.
    pub fn clear(&mut self)
        ensures
            final(self).view() == Seq::<Point>::empty(),
    {
        self.0.clear();
    }

    /// Adds a point at the end.
    pub fn add(&mut self, point: Point)
        ensures
            final(self).view() == old(self).view().push(point),
    {
        self.0.push(point);
    }

    /// The point after `prev` in the cycle.
    pub fn get_next(&self, prev: Point) -> (next: Option<Point>)
        ensures
            next == next_after(self.view(), prev),
    {
        let count = self.0.len();
        let mut idx: usize = 0;
        while idx < count
            invariant
                count == self.0@.len(),
                0 <= idx <= count,
                forall|k: int| 0 <= k < idx ==> self.0@[k] != prev,
            decreases count - idx,
        {
            if self.0[idx] == prev {
                proof {
                    lemma_first_at_is(self.0@, prev, idx as int);
                    if idx == count - 1 {
                        vstd::arithmetic::div_mod::lemma_mod_self_0(count as int);
                    } else {
                        vstd::arithmetic::div_mod::lemma_small_mod((idx + 1) as nat, count as nat);
                    }
                }
                let after = if idx == count - 1 {
                    0
                } else {
                    idx + 1
                };
                return Some(self.0[after]);
            }
            idx = idx + 1;
        }
        proof {
            lemma_first_at_is(self.0@, prev, count as int);
        }
        if count == 0 {
            None
        } else {
            Some(self.0[0])
        }
    }

    /// Whether `pos` is one of the points.
    pub fn contains(&self, pos: Point) -> (found: bool)
        ensures
            found == self.view().contains(pos),
    {
        let mut idx: usize = 0;
        while idx < self.0.len()
            invariant
                0 <= idx <= self.0@.len(),
                forall|k: int| 0 <= k < idx ==> self.0@[k] != pos,
            decreases self.0@.len() - idx,
        {
            if self.0[idx] == pos {
                return true;
            }
            idx = idx + 1;
        }
        false
    }
}

} // verus!
