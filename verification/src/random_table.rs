//! Weighted tables of named outcomes.

use crate::dice::roll_die;
use rltk::RandomNumberGenerator;
use vstd::prelude::*;

verus! {

/// What an entry of weight `weight` adds to the total: nothing unless the
/// weight is positive.
pub open spec fn share(weight: int) -> int {
    if weight > 0 {
        weight
    } else {
        0
    }
}

/// The sum of the shares of the first `n` weights.
pub open spec fn shares_before(weights: Seq<int>, n: int) -> int
    decreases n,
{
    if n <= 0 {
        0
    } else {
        shares_before(weights, n - 1) + share(weights[n - 1])
    }
}

/// The entry whose bucket holds `roll`, when the buckets are laid side by side
/// from zero in the order of the entries, each as wide as its share.
pub open spec fn bucket_of(weights: Seq<int>, roll: int) -> Option<int> {
    if exists|i: int| holds_roll(weights, i, roll) {
        Some(choose|i: int| holds_roll(weights, i, roll))
    } else {
        None
    }
}

/// Entry `i` exists and its bucket holds `roll`.
pub open spec fn holds_roll(weights: Seq<int>, i: int, roll: int) -> bool {
    0 <= i < weights.len() && shares_before(weights, i) <= roll < shares_before(weights, i + 1)
}

pub proof fn lemma_shares_monotonic(weights: Seq<int>, i: int, j: int)
    requires
        i <= j,
    ensures
        shares_before(weights, i) <= shares_before(weights, j),
    decreases j - i,
{
    if i < j {
        lemma_shares_monotonic(weights, i, j - 1);
    }
}

/// At most one bucket holds a given roll.
pub proof fn lemma_bucket_unique(weights: Seq<int>, i: int, j: int, roll: int)
    requires
        holds_roll(weights, i, roll),
        holds_roll(weights, j, roll),
    ensures
        i == j,
{
    if i < j {
        lemma_shares_monotonic(weights, i + 1, j);
    } else if j < i {
        lemma_shares_monotonic(weights, j + 1, i);
    }
}

/// Every roll below the total lies in some bucket, and no other roll does.
pub proof fn lemma_bucket_exists(weights: Seq<int>, roll: int)
    ensures
        bucket_of(weights, roll).is_some() <==> 0 <= roll < shares_before(
            weights,
            weights.len() as int,
        ),
        bucket_of(weights, roll) matches Some(i) ==> holds_roll(weights, i, roll),
{
    let n = weights.len() as int;
    if 0 <= roll < shares_before(weights, n) {
        lemma_bucket_search(weights, roll, n);
    } else {
        assert forall|i: int| !holds_roll(weights, i, roll) by {
            if 0 <= i < n {
                lemma_shares_monotonic(weights, 0, i);
                lemma_shares_monotonic(weights, i + 1, n);
            }
        }
    }
}

proof fn lemma_bucket_search(weights: Seq<int>, roll: int, n: int)
    requires
        0 <= n <= weights.len(),
        0 <= roll < shares_before(weights, n),
    ensures
        exists|i: int| holds_roll(weights, i, roll),
    decreases n,
{
    if roll < shares_before(weights, n - 1) {
        lemma_bucket_search(weights, roll, n - 1);
    } else {
        assert(holds_roll(weights, n - 1, roll));
    }
}

/// What a roll of `roll` gives on a table with the given names and weights:
/// the name of the entry whose bucket holds the roll, or `"None"` where no
/// bucket does.
pub open spec fn outcome_of(names: Seq<Seq<char>>, weights: Seq<int>, roll: int) -> Seq<char> {
    match bucket_of(weights, roll) {
        Some(i) => names[i],
        None => "None"@,
    }
}

pub struct RandomEntry {
    name: String,
    weight: i32,
}

impl RandomEntry {
    pub closed spec fn spec_name(&self) -> Seq<char> {
        self.name@
    }

    pub closed spec fn spec_weight(&self) -> int {
        self.weight as int
    }

    pub fn new(name: String, weight: i32) -> (e: RandomEntry)
        ensures
            e.spec_name() == name@,
            e.spec_weight() == weight,
    {
        RandomEntry { name, weight }
    }
}

pub struct RandomTable {
    entries: Vec<RandomEntry>,
    total_weight: i32,
}

impl RandomTable {
    /// The names of the entries, in the order in which they were added.
    pub closed spec fn names(&self) -> Seq<Seq<char>> {
        Seq::new(self.entries@.len(), |i: int| self.entries@[i].name@)
    }

    /// The weights of the entries, in the order in which they were added.
    pub closed spec fn weights(&self) -> Seq<int> {
        Seq::new(self.entries@.len(), |i: int| self.entries@[i].weight as int)
    }

    /// The sum of the positive weights.
    pub open spec fn total(&self) -> int {
        shares_before(self.weights(), self.weights().len() as int)
    }

    #[verifier::type_invariant]
    spec fn consistent(&self) -> bool {
        self.total_weight == self.total() && self.total_weight < i32::MAX
    }

    /// What a roll of `roll` gives: the name of the entry whose bucket holds
    /// it, or `"None"` where no bucket does.
    pub open spec fn outcome(&self, roll: int) -> Seq<char> {
        outcome_of(self.names(), self.weights(), roll)
    }

    pub fn new() -> (t: RandomTable)
        ensures
            t.names() == Seq::<Seq<char>>::empty(),
            t.weights() == Seq::<int>::empty(),
            t.total() == 0,
    {
        let t = RandomTable { entries: Vec::new(), total_weight: 0 };
        t
    }

    /// Appends an entry. One whose weight is not positive is kept in the
    /// table and never rolled.
    pub fn add(self, name: &str, weight: i32) -> (t: RandomTable)
        requires
            self.total() + share(weight as int) < i32::MAX,
        ensures
            t.names() == self.names().push(name@),
            t.weights() == self.weights().push(weight as int),
            t.total() == self.total() + share(weight as int),
    {
        proof {
            use_type_invariant(&self);
        }
        let ghost before = self;
        let mut entries = self.entries;
        let total_weight = if weight > 0 {
            self.total_weight + weight
        } else {
            self.total_weight
        };
        entries.push(RandomEntry::new(name.to_owned(), weight));
        let ghost ws = before.weights().push(weight as int);
        proof {
            lemma_shares_prefix(before.weights(), ws, before.weights().len() as int);
        }
        assert(Seq::new(entries@.len(), |i: int| entries@[i].weight as int) =~= ws);
        assert(shares_before(ws, ws.len() as int) == shares_before(ws, ws.len() - 1) + share(
            weight as int,
        ));
        let t = RandomTable { entries, total_weight };
        t
    }

    /// The number of entries.
    pub fn len(&self) -> (n: usize)
        ensures
            n == self.weights().len(),
            n == self.names().len(),
    {
        self.entries.len()
    }

    /// The sum of the positive weights.
    pub fn total_weight(&self) -> (w: i32)
        ensures
            w == self.total(),
            0 <= w < i32::MAX,
    {
        proof {
            use_type_invariant(self);
            lemma_shares_monotonic(self.weights(), 0, self.weights().len() as int);
        }
        self.total_weight
    }

    /// The entry whose bucket holds `roll`, if any.
    pub fn pick_index(&self, roll: i32) -> (found: Option<usize>)
        ensures
            found.is_some() <==> 0 <= roll < self.total(),
            match found {
                Some(i) => bucket_of(self.weights(), roll as int) == Some(i as int),
                None => bucket_of(self.weights(), roll as int).is_none(),
            },
    {
        proof {
            use_type_invariant(self);
            lemma_bucket_exists(self.weights(), roll as int);
        }
        if roll < 0 || roll >= self.total_weight {
            return None;
        }
        let mut index: usize = 0;
        let mut below: i32 = 0;
        while index < self.entries.len()
            invariant
                0 <= index <= self.entries@.len(),
                below == shares_before(self.weights(), index as int),
                0 <= below <= roll < self.total(),
                self.total() < i32::MAX,
                self.weights().len() == self.entries@.len(),
                forall|k: int| 0 <= k < self.entries@.len() ==> self.weights()[k] == (
                #[trigger] self.entries@[k]).weight,
            decreases self.entries@.len() - index,
        {
            let w: i32 = self.entries[index].weight;
            proof {
                lemma_shares_monotonic(
                    self.weights(),
                    index as int + 1,
                    self.weights().len() as int,
                );
            }
            if w > 0 {
                if roll - below < w {
                    proof {
                        let j = choose|j: int| holds_roll(self.weights(), j, roll as int);
                        lemma_bucket_unique(self.weights(), index as int, j, roll as int);
                    }
                    return Some(index);
                }
                below = below + w;
            }
            index = index + 1;
        }
        None
    }

    /// The outcome of a given roll.
    pub fn pick(&self, roll: i32) -> (name: String)
        ensures
            name@ == self.outcome(roll as int),
    {
        match self.pick_index(roll) {
            Some(i) => self.entries[i].name.clone(),
            None => "None".to_owned(),
        }
    }

    /// Rolls the table: throws a die with as many faces as the total weight
    /// and returns the outcome of the face shown less one. An empty total
    /// gives `"None"`.
    pub fn roll(&self, rng: &mut RandomNumberGenerator) -> (name: String)
        ensures
            self.total() == 0 ==> name@ == "None"@,
            self.total() > 0 ==> exists|r: int|
                0 <= r < self.total() && name@ == #[trigger] self.outcome(r),
    {
        let total = self.total_weight();
        if total == 0 {
            return "None".to_owned();
        }
        let r: i32 = roll_die(rng, total) - 1;
        self.pick(r)
    }
}

/// The shares of a prefix do not depend on what follows it.
pub proof fn lemma_shares_prefix(a: Seq<int>, b: Seq<int>, n: int)
    requires
        n <= a.len(),
        n <= b.len(),
        forall|k: int| 0 <= k < n ==> a[k] == b[k],
    ensures
        shares_before(a, n) == shares_before(b, n),
    decreases n,
{
    if n > 0 {
        lemma_shares_prefix(a, b, n - 1);
    }
}

} // verus!
