//! The population: individuals ranked by fitness, best first.

use crate::individual::Individual;
use vstd::prelude::*;
use vstd::seq_lib::{to_multiset_build, to_multiset_remove};

verus! {

/// The live individuals, ranked by fitness. The best individual leaves
/// first; among individuals of equal fitness, the one that entered first
/// leaves first.
#[derive(Clone)]
pub struct Population {
    /// The individuals from worst to best, so that the best is taken from
    /// the end.
    ranked: Vec<Individual>,
}

/// No individual is fitter than one ranked before it.
pub open spec fn descending(ranking: Seq<Individual>) -> bool {
    forall|i: int, j: int|
        0 <= i <= j < ranking.len() ==> ranking[i].fitness >= ranking[j].fitness
}

/// The number of individuals in `ranking` whose fitness is at least
/// `fitness`: the position at which a newcomer of that fitness is ranked.
pub open spec fn slot_for(ranking: Seq<Individual>, fitness: int) -> nat
    decreases ranking.len(),
{
    if ranking.len() == 0 {
        0
    } else {
        slot_for(ranking.drop_last(), fitness) + if ranking.last().fitness >= fitness {
            1nat
        } else {
            0nat
        }
    }
}

/// The ranking after `individual` has entered: it is placed behind every
/// individual that is at least as fit and ahead of all others.
pub open spec fn inserted(ranking: Seq<Individual>, individual: Individual) -> Seq<Individual> {
    ranking.insert(slot_for(ranking, individual.fitness as int) as int, individual)
}

/// The ranking after the individuals of `arrivals` have entered an empty
/// population one by one, in order.
pub open spec fn assembled(arrivals: Seq<Individual>) -> Seq<Individual>
    decreases arrivals.len(),
{
    if arrivals.len() == 0 {
        Seq::empty()
    } else {
        inserted(assembled(arrivals.drop_last()), arrivals.last())
    }
}

/// The individuals that `count` successive pops hand out of `ranking`, in
/// the order in which they leave; fewer where the ranking runs out.
pub open spec fn popped(ranking: Seq<Individual>, count: nat) -> Seq<Individual>
    decreases count,
{
    if count == 0 || ranking.len() == 0 {
        Seq::empty()
    } else {
        seq![ranking.first()] + popped(ranking.drop_first(), (count - 1) as nat)
    }
}

/// A position that has only individuals of at least the given fitness
/// before it, and only less fit ones from it on, is the slot for that
/// fitness.
pub proof fn lemma_slot_is_split(ranking: Seq<Individual>, fitness: int, split: int)
    requires
        0 <= split <= ranking.len(),
        forall|i: int| 0 <= i < split ==> (#[trigger] ranking[i]).fitness >= fitness,
        forall|i: int| split <= i < ranking.len() ==> (#[trigger] ranking[i]).fitness < fitness,
    ensures
        slot_for(ranking, fitness) == split,
    decreases ranking.len(),
{
    if ranking.len() > 0 {
        let front = ranking.drop_last();
        if split == ranking.len() {
            lemma_slot_is_split(front, fitness, split - 1);
        } else {
            lemma_slot_is_split(front, fitness, split);
        }
    }
}

/// In a descending ranking the slot for a fitness splits the ranking:
/// every individual before it is at least that fit, every other is less fit.
pub proof fn lemma_slot_splits(ranking: Seq<Individual>, fitness: int)
    requires
        descending(ranking),
    ensures
        slot_for(ranking, fitness) <= ranking.len(),
        forall|i: int|
            0 <= i < slot_for(ranking, fitness) ==> (#[trigger] ranking[i]).fitness >= fitness,
        forall|i: int|
            slot_for(ranking, fitness) <= i < ranking.len() ==> (#[trigger] ranking[i]).fitness
                < fitness,
    decreases ranking.len(),
{
    if ranking.len() > 0 {
        let front = ranking.drop_last();
        lemma_slot_splits(front, fitness);
        let slot = slot_for(front, fitness);
        if ranking.last().fitness >= fitness {
            if slot < front.len() {
                assert(front[slot as int].fitness < fitness);
                assert(ranking[slot as int].fitness >= ranking[ranking.len() - 1].fitness);
            }
            assert forall|i: int| 0 <= i < slot + 1 implies (#[trigger] ranking[i]).fitness
                >= fitness by {
                if i < slot {
                    assert(front[i].fitness >= fitness);
                }
            }
        } else {
            assert forall|i: int| 0 <= i < slot implies (#[trigger] ranking[i]).fitness
                >= fitness by {
                assert(front[i].fitness >= fitness);
            }
            assert forall|i: int| slot <= i < ranking.len() implies (#[trigger] ranking[i]).fitness
                < fitness by {
                if i < front.len() {
                    assert(front[i].fitness < fitness);
                }
            }
        }
    }
}

/// Entering a descending ranking leaves it descending and one longer.
pub proof fn lemma_inserted_descending(ranking: Seq<Individual>, individual: Individual)
    requires
        descending(ranking),
    ensures
        descending(inserted(ranking, individual)),
        inserted(ranking, individual).len() == ranking.len() + 1,
{
    lemma_slot_splits(ranking, individual.fitness as int);
    let slot = slot_for(ranking, individual.fitness as int) as int;
    let after = inserted(ranking, individual);
    assert forall|i: int, j: int| 0 <= i <= j < after.len() implies after[i].fitness
        >= after[j].fitness by {
        if i < slot {
            assert(after[i] == ranking[i]);
        } else if i > slot {
            assert(after[i] == ranking[i - 1]);
        }
        if j < slot {
            assert(after[j] == ranking[j]);
        } else if j > slot {
            assert(after[j] == ranking[j - 1]);
        }
    }
}

/// Entering a ranking adds the newcomer and changes nothing else.
pub proof fn lemma_inserted_holds(ranking: Seq<Individual>, individual: Individual)
    requires
        descending(ranking),
    ensures
        inserted(ranking, individual).to_multiset() == ranking.to_multiset().insert(individual),
{
    lemma_slot_splits(ranking, individual.fitness as int);
    let slot = slot_for(ranking, individual.fitness as int) as int;
    let after = inserted(ranking, individual);
    assert(after.remove(slot) =~= ranking);
    assert(after[slot] == individual);
    to_multiset_remove(after, slot);
    after.to_multiset_ensures();
    assert(after.contains(individual));
    assert(after.to_multiset() =~= ranking.to_multiset().insert(individual));
}

/// Whatever enters an empty population one by one ends up in the ranking,
/// each individual as often as it entered, and nothing else does.
pub proof fn lemma_assembled_holds_arrivals(arrivals: Seq<Individual>)
    ensures
        assembled(arrivals).to_multiset() == arrivals.to_multiset(),
    decreases arrivals.len(),
{
    if arrivals.len() == 0 {
        assert(arrivals =~= Seq::<Individual>::empty());
    } else {
        let front = arrivals.drop_last();
        lemma_assembled_holds_arrivals(front);
        lemma_assembled_descending(front);
        lemma_inserted_holds(assembled(front), arrivals.last());
        to_multiset_build(front, arrivals.last());
        assert(front.push(arrivals.last()) =~= arrivals);
    }
}

/// Whatever enters an empty population one by one ends up ranked in
/// descending order, and nothing is lost.
pub proof fn lemma_assembled_descending(arrivals: Seq<Individual>)
    ensures
        descending(assembled(arrivals)),
        assembled(arrivals).len() == arrivals.len(),
    decreases arrivals.len(),
{
    if arrivals.len() > 0 {
        lemma_assembled_descending(arrivals.drop_last());
        lemma_inserted_descending(assembled(arrivals.drop_last()), arrivals.last());
    }
}

impl View for Population {
    type V = Seq<Individual>;

    /// The ranking, best first: the order in which repeated popping hands
    /// the individuals out.
    closed spec fn view(&self) -> Seq<Individual> {
        self.ranked@.reverse()
    }
}

impl Population {
    /// The ranking is in descending order of fitness.
    pub open spec fn wf(&self) -> bool {
        descending(self@)
    }

    /// An empty population.
    pub fn new() -> (population: Population)
        ensures
            population@ == Seq::<Individual>::empty(),
            population.wf(),
    {
        let population = Population { ranked: Vec::new() };
        assert(population.ranked@.reverse() =~= Seq::<Individual>::empty());
        population
    }

    /// The number of individuals.
    pub fn len(&self) -> (n: usize)
        ensures
            n == self@.len(),
    {
        self.ranked.len()
    }

    /// Whether the population holds no individual.
    pub fn is_empty(&self) -> (empty: bool)
        ensures
            empty == (self@.len() == 0),
    {
        self.ranked.len() == 0
    }

    /// The best individual, if there is one.
    pub fn peek(&self) -> (best: Option<&Individual>)
        ensures
            self@.len() == 0 ==> best is None,
            self@.len() > 0 ==> best == Some(&self@[0]),
    {
        let n = self.ranked.len();
        if n == 0 {
            None
        } else {
            Some(&self.ranked[n - 1])
        }
    }

    /// Removes and returns the best individual, if there is one.
    pub fn pop(&mut self) -> (best: Option<Individual>)
        ensures
            old(self)@.len() == 0 ==> best is None && final(self)@ == old(self)@,
            old(self)@.len() > 0 ==> best == Some(old(self)@[0])
                && final(self)@ == old(self)@.drop_first(),
            old(self).wf() ==> final(self).wf(),
    {
        let best = self.ranked.pop();
        proof {
            if old(self).ranked@.len() > 0 {
                assert(self.ranked@.reverse() =~= old(self).ranked@.reverse().drop_first());
            }
        }
        best
    }

    /// Adds an individual, ranking it behind every individual that is at
    /// least as fit and ahead of all others.
    pub fn push(&mut self, individual: Individual)
        requires
            old(self).wf(),
        ensures
            final(self)@ == inserted(old(self)@, individual),
            final(self)@.len() == old(self)@.len() + 1,
            final(self).wf(),
    {
        let n = self.ranked.len();
        let ghost before = self.ranked@;
        let ghost ranking = self@;
        // Find the lowest position whose individual is at least as fit.
        let mut low: usize = 0;
        let mut high: usize = n;
        while low < high
            invariant
                low <= high <= n,
                n == self.ranked@.len(),
                self.ranked@ == before,
                descending(before.reverse()),
                forall|i: int| 0 <= i < low ==> (#[trigger] before[i]).fitness < individual.fitness,
                forall|i: int|
                    high <= i < n ==> (#[trigger] before[i]).fitness >= individual.fitness,
            decreases high - low,
        {
            let mid = low + (high - low) / 2;
            if self.ranked[mid].fitness < individual.fitness {
                assert forall|i: int| 0 <= i < mid + 1 implies (#[trigger] before[i]).fitness
                    < individual.fitness by {
                    assert(before.reverse()[n - 1 - mid].fitness >= before.reverse()[n - 1
                        - i].fitness);
                }
                low = mid + 1;
            } else {
                assert forall|i: int| mid <= i < n implies (#[trigger] before[i]).fitness
                    >= individual.fitness by {
                    assert(before.reverse()[n - 1 - i].fitness >= before.reverse()[n - 1
                        - mid].fitness);
                }
                high = mid;
            }
        }
        self.ranked.insert(low, individual);
        proof {
            let split = n - low;
            assert forall|i: int| 0 <= i < split implies (#[trigger] ranking[i]).fitness
                >= individual.fitness by {
                assert(ranking[i] == before[n - 1 - i]);
            }
            assert forall|i: int| split <= i < ranking.len() implies (#[trigger] ranking[i]).fitness
                < individual.fitness by {
                assert(ranking[i] == before[n - 1 - i]);
            }
            lemma_slot_is_split(ranking, individual.fitness as int, split);
            assert(self.ranked@.reverse() =~= ranking.insert(split, individual));
            lemma_inserted_descending(ranking, individual);
        }
    }
}

/// Successive pops hand out the front of the ranking, in its order.
proof fn lemma_popped_is_front(ranking: Seq<Individual>, count: nat)
    ensures
        popped(ranking, count) == ranking.take(
            if count <= ranking.len() {
                count as int
            } else {
                ranking.len() as int
            },
        ),
    decreases count,
{
    if count == 0 || ranking.len() == 0 {
        assert(ranking.take(0) =~= Seq::<Individual>::empty());
    } else {
        let rest = ranking.drop_first();
        lemma_popped_is_front(rest, (count - 1) as nat);
        let taken = if count <= ranking.len() {
            count as int
        } else {
            ranking.len() as int
        };
        assert(seq![ranking.first()] + rest.take(taken - 1) =~= ranking.take(taken));
    }
}

/// After a population has been built by `push` and `pop` alone, repeatedly
/// popping from it yields individuals whose fitness never increases from
/// one pop to the next.
pub proof fn lemma_pop_order_non_increasing(population: Population, count: nat)
    requires
        population.wf(),
    ensures
        descending(popped(population@, count)),
{
    lemma_popped_is_front(population@, count);
}

} // verus!
