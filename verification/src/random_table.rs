//! A table of weighted entries and the weighted draw from it.
//!
//! An entry's share of the draws is its weight over the total: entry `i`
//! is drawn when the roll falls in the slice of `0 .. total` that begins
//! where the weights before `i` end.

use vstd::prelude::*;
use bracket_lib::prelude::RandomNumberGenerator;
use crate::random::range;

verus! {

struct RandomEntry<T> {
    data: T,
    weight: i32,
}

/// Entries with positive weights, in the order in which they were added.
pub struct RandomTable<T> {
    entries: Vec<RandomEntry<T>>,
    total_weight: i32,
}

/// The sum of the first `upto` weights.
pub open spec fn weight_before(weights: Seq<int>, upto: int) -> int
    decreases upto,
{
    if upto <= 0 {
        0
    } else {
        weight_before(weights, upto - 1) + weights[upto - 1]
    }
}

/// The sum over a list of positive weights grows with its length.
pub proof fn lemma_weight_before_grows(weights: Seq<int>, lo: int, hi: int)
    requires
        0 <= lo <= hi <= weights.len(),
        forall|k: int| 0 <= k < weights.len() ==> weights[k] > 0,
    ensures
        weight_before(weights, lo) + (hi - lo) <= weight_before(weights, hi),
    decreases hi - lo,
{
    if lo < hi {
        lemma_weight_before_grows(weights, lo, hi - 1);
    }
}

/// At most one entry's slice holds a given roll.
pub proof fn lemma_slice_unique(weights: Seq<int>, roll: int, i: int, j: int)
    requires
        forall|k: int| 0 <= k < weights.len() ==> weights[k] > 0,
        0 <= i < weights.len(),
        0 <= j < weights.len(),
        weight_before(weights, i) <= roll < weight_before(weights, i + 1),
        weight_before(weights, j) <= roll < weight_before(weights, j + 1),
    ensures
        i == j,
{
    if i < j {
        lemma_weight_before_grows(weights, i + 1, j);
    } else if j < i {
        lemma_weight_before_grows(weights, j + 1, i);
    }
}

impl<T> RandomTable<T> {
    /// The data of the entries, in order.
    pub closed spec fn items(&self) -> Seq<T> {
        self.entries@.map_values(|e: RandomEntry<T>| e.data)
    }

    /// The weights of the entries, in order.
    pub closed spec fn weights(&self) -> Seq<int> {
        self.entries@.map_values(|e: RandomEntry<T>| e.weight as int)
    }

    /// The sum of all weights.
    pub closed spec fn total(&self) -> int {
        self.total_weight as int
    }

    /// Every weight is positive and the total is their sum.
    pub closed spec fn wf(&self) -> bool {
        &&& forall|k: int| 0 <= k < self.entries@.len() ==> (#[trigger] self.entries@[k]).weight > 0
        &&& self.total_weight == weight_before(self.weights(), self.entries@.len() as int)
    }

    /// What is true of every well-formed table.
    pub proof fn lemma_shape(&self)
        requires
            self.wf(),
        ensures
            self.items().len() == self.weights().len(),
            forall|k: int| 0 <= k < self.weights().len() ==> self.weights()[k] > 0,
            self.total() == weight_before(self.weights(), self.weights().len() as int),
            0 <= self.total() <= i32::MAX,
            self.total() == 0 <==> self.items().len() == 0,
    {
        lemma_weight_before_grows(self.weights(), 0, self.weights().len() as int);
    }

    /// The empty table.
    pub fn new() -> (table: RandomTable<T>)
        ensures
            table.wf(),
            table.items() == Seq::<T>::empty(),
            table.weights() == Seq::<int>::empty(),
            table.total() == 0,
    {
        let table = RandomTable { entries: Vec::new(), total_weight: 0 };
        assert(table.items() =~= Seq::<T>::empty());
        assert(table.weights() =~= Seq::<int>::empty());
        table
    }

    /// The table with one more entry. An entry whose weight is not positive
    /// could never be drawn, and is left out.
    pub fn add(self, data: T, weight: i32) -> (table: RandomTable<T>)
        requires
            self.wf(),
            weight > 0 ==> self.total() + weight <= i32::MAX,
        ensures
            table.wf(),
            weight > 0 ==> table.items() == self.items().push(data) && table.weights()
                == self.weights().push(weight as int) && table.total() == self.total() + weight,
            weight <= 0 ==> table.items() == self.items() && table.weights() == self.weights()
                && table.total() == self.total(),
    {
        if weight > 0 {
            let mut table = self;
            let ghost before = table.entries@;
            let ghost old_weights = self.weights();
            table.total_weight = table.total_weight + weight;
            table.entries.push(RandomEntry { data, weight });
            proof {
                assert(table.items() =~= self.items().push(data));
                assert(table.weights() =~= old_weights.push(weight as int));
                lemma_weight_before_same(old_weights, table.weights(), before.len() as int);
            }
            table
        } else {
            self
        }
    }

    /// The sum of all weights: the bound, itself excluded, on a roll.
    pub fn total_weight(&self) -> (total: i32)
        ensures
            total == self.total(),
    {
        self.total_weight
    }

    /// The entry whose slice of `0 .. total` holds `roll`.
    pub fn pick(&self, roll: i32) -> (chosen: &T)
        requires
            self.wf(),
            0 <= roll < self.total(),
        ensures
            exists|i: int|
                0 <= i < self.items().len() && weight_before(self.weights(), i) <= roll
                    < weight_before(self.weights(), i + 1) && *chosen == #[trigger] self.items()[i],
    {
        let count = self.entries.len();
        let mut index: usize = 0;
        let mut left: i32 = roll;
        proof {
            self.lemma_shape();
        }
        while left >= self.entries[index].weight
            invariant
                self.wf(),
                count == self.entries@.len(),
                0 <= index < self.entries@.len(),
                0 <= left,
                left == roll - weight_before(self.weights(), index as int),
                roll < weight_before(self.weights(), self.entries@.len() as int),
            decreases self.entries@.len() - index,
        {
            proof {
                assert(self.weights()[index as int] == self.entries@[index as int].weight);
                assert(weight_before(self.weights(), index as int + 1) == weight_before(
                    self.weights(),
                    index as int,
                ) + self.weights()[index as int]);
            }
            left = left - self.entries[index].weight;
            index = index + 1;
        }
        proof {
            assert(self.items()[index as int] == self.entries@[index as int].data);
            assert(self.weights()[index as int] == self.entries@[index as int].weight);
            assert(weight_before(self.weights(), index as int + 1) == weight_before(
                self.weights(),
                index as int,
            ) + self.weights()[index as int]);
        }
        &self.entries[index].data
    }

    /// A weighted draw. `None` when the table is empty.
    pub fn roll(&self, rng: &mut RandomNumberGenerator) -> (chosen: Option<&T>)
        requires
            self.wf(),
        ensures
            chosen.is_none() <==> self.items().len() == 0,
            chosen matches Some(item) ==> exists|i: int|
                0 <= i < self.items().len() && *item == #[trigger] self.items()[i],
    {
        proof {
            self.lemma_shape();
        }
        if self.total_weight <= 0 {
            None
        } else {
            let drawn = range(rng, 0, self.total_weight);
            Some(self.pick(drawn))
        }
    }
}

/// Two weight lists that agree on their first `upto` entries have the same
/// sum over them.
pub proof fn lemma_weight_before_same(a: Seq<int>, b: Seq<int>, upto: int)
    requires
        0 <= upto <= a.len(),
        upto <= b.len(),
        forall|k: int| 0 <= k < upto ==> a[k] == b[k],
    ensures
        weight_before(a, upto) == weight_before(b, upto),
    decreases upto,
{
    if upto > 0 {
        lemma_weight_before_same(a, b, upto - 1);
    }
}

} // verus!
