//! The population engine: a target, the population evolving toward it, and
//! the generation step.

use crate::chromosome::{inherits, Chromosome, Crossover};
use crate::individual::Individual;
use crate::population::{
    assembled, descending, inserted, lemma_assembled_descending, lemma_assembled_holds_arrivals,
    lemma_inserted_descending, lemma_pop_order_non_increasing, lemma_slot_splits, popped,
    slot_for, Population,
};
use crate::rate::MutationRate;
use crate::target::{error_score, fitness_score, ErrorScore, Quality, TargetImage};
use vstd::prelude::*;

verus! {

/// Numerator of the rate at which the first generation mutates.
pub const INITIAL_RATE_NUMER: u32 = 1;

/// Denominator of the rate at which the first generation mutates.
pub const INITIAL_RATE_DENOM: u32 = 5;

/// Each round of reproduction uses up this much of the budget.
pub const STRIDE: usize = 3;

/// The run state: the population, the target it evolves toward, the stored
/// capacity, the generation counter and the growth flag.
pub struct Environment {
    population: Population,
    grow_population: bool,
    target: TargetImage,
    capacity: usize,
    time: u32,
}

/// What the engine hands out for persisting and logging the state of a run:
/// the best individual's genes with the image dimensions, its scores, and
/// the generation and capacity at which it was taken.
pub struct Report {
    pub pixels: Vec<u8>,
    pub width: u32,
    pub height: u32,
    pub generation: u32,
    pub fitness: Quality,
    pub error: ErrorScore,
    pub capacity: usize,
}

/// The rate at which the first generation mutates: one in five.
pub open spec fn initial_rate() -> MutationRate {
    MutationRate { numer: INITIAL_RATE_NUMER, denom: INITIAL_RATE_DENOM, decays: 0 }
}

/// The number of reproduction rounds that a budget pays for: the budget
/// divided by the stride, rounded up.
pub open spec fn rounds(budget: nat) -> nat {
    (budget + STRIDE - 1) as nat / STRIDE as nat
}

/// The individual matches the target in length, carries the score of its
/// genes and a valid rate, and was made no later than `latest`, by no more
/// crossovers than generations had passed.
pub open spec fn admissible(individual: Individual, pixels: Seq<u8>, latest: int) -> bool {
    &&& individual.makeup.0@.len() == pixels.len()
    &&& individual.fitness == fitness_score(pixels, individual.makeup.0@)
    &&& individual.makeup.1.wf()
    &&& individual.makeup.1.decays <= individual.generation <= latest
}

/// `child` was bred from `first` and `second` in generation `now`: each of
/// its genes is the gene of one parent at the same index, its rate is the
/// first parent's decayed once, and it carries the score of its genes.
pub open spec fn is_offspring(
    child: Individual,
    first: Individual,
    second: Individual,
    pixels: Seq<u8>,
    now: int,
) -> bool {
    &&& inherits(child.makeup.0@, first.makeup.0@, second.makeup.0@)
    &&& child.makeup.1 == first.makeup.1.decayed()
    &&& child.fitness == fitness_score(pixels, child.makeup.0@)
    &&& child.generation == now
}

/// The order in which one reproduction pass hands individuals to the next
/// population: round by round the two best individuals not yet taken from
/// `ranking`, followed by their child.
pub open spec fn reproduction_order(ranking: Seq<Individual>, children: Seq<Individual>) -> Seq<
    Individual,
>
    decreases children.len(),
{
    if children.len() == 0 {
        Seq::empty()
    } else {
        let round = children.len() - 1;
        reproduction_order(ranking, children.drop_last()).push(ranking[2 * round]).push(
            ranking[2 * round + 1],
        ).push(children.last())
    }
}

/// `next` is the ranking that one reproduction pass of `count` rounds makes
/// of `ranking` when it breeds `children`: child `k` descends from the
/// individuals ranked `2k` and `2k + 1`, and parents and children enter the
/// new population in reproduction order. Individuals ranked below the last
/// parent are left behind.
pub open spec fn reproduced(
    ranking: Seq<Individual>,
    count: nat,
    pixels: Seq<u8>,
    now: int,
    children: Seq<Individual>,
    next: Seq<Individual>,
) -> bool {
    &&& children.len() == count
    &&& forall|k: int|
        0 <= k < count ==> is_offspring(
            #[trigger] children[k],
            ranking[2 * k],
            ranking[2 * k + 1],
            pixels,
            now,
        )
    &&& next == assembled(reproduction_order(ranking, children))
}

/// A reproduction order holds three individuals per round.
pub proof fn lemma_reproduction_order_len(ranking: Seq<Individual>, children: Seq<Individual>)
    ensures
        reproduction_order(ranking, children).len() == 3 * children.len(),
    decreases children.len(),
{
    if children.len() > 0 {
        lemma_reproduction_order_len(ranking, children.drop_last());
    }
}

/// A reproduction order holds both parents of every round.
pub proof fn lemma_reproduction_order_holds_parents(
    ranking: Seq<Individual>,
    children: Seq<Individual>,
    rank: int,
)
    requires
        0 <= rank < 2 * children.len(),
    ensures
        reproduction_order(ranking, children).contains(ranking[rank]),
    decreases children.len(),
{
    let round = children.len() - 1;
    let order = reproduction_order(ranking, children);
    let earlier = reproduction_order(ranking, children.drop_last());
    lemma_reproduction_order_len(ranking, children.drop_last());
    if rank == 2 * round {
        assert(order[3 * round] == ranking[rank]);
    } else if rank == 2 * round + 1 {
        assert(order[3 * round + 1] == ranking[rank]);
    } else {
        lemma_reproduction_order_holds_parents(ranking, children.drop_last(), rank);
        let at = choose|at: int| 0 <= at < earlier.len() && earlier[at] == ranking[rank];
        assert(order[at] == ranking[rank]);
    }
}

/// Elitism: the parents of a reproduction pass, the best `2 * count`
/// individuals of the old ranking, are all in the new ranking, and where
/// there is at least one round the best of the new ranking is at least as
/// fit as the best of the old.
pub proof fn lemma_reproduction_is_elitist(
    ranking: Seq<Individual>,
    count: nat,
    pixels: Seq<u8>,
    now: int,
    children: Seq<Individual>,
    next: Seq<Individual>,
)
    requires
        reproduced(ranking, count, pixels, now, children, next),
        2 * count <= ranking.len(),
    ensures
        forall|rank: int| 0 <= rank < 2 * count ==> next.contains(#[trigger] ranking[rank]),
        count > 0 ==> next[0].fitness >= ranking[0].fitness,
{
    let order = reproduction_order(ranking, children);
    lemma_assembled_holds_arrivals(order);
    lemma_assembled_descending(order);
    order.to_multiset_ensures();
    next.to_multiset_ensures();
    assert forall|rank: int| 0 <= rank < 2 * count implies next.contains(
        #[trigger] ranking[rank],
    ) by {
        lemma_reproduction_order_holds_parents(ranking, children, rank);
        assert(order.to_multiset().count(ranking[rank]) > 0);
        assert(next.to_multiset().count(ranking[rank]) > 0);
    }
    if count > 0 {
        assert(next.contains(ranking[0]));
        let at = choose|at: int| 0 <= at < next.len() && next[at] == ranking[0];
        assert(next[0].fitness >= next[at].fitness);
    }
}

impl Environment {
    /// The population.
    pub closed spec fn spec_population(&self) -> &Population {
        &self.population
    }

    /// The target.
    pub closed spec fn spec_target(&self) -> &TargetImage {
        &self.target
    }

    /// The stored capacity.
    pub closed spec fn spec_capacity(&self) -> usize {
        self.capacity
    }

    /// The generation counter.
    pub closed spec fn spec_time(&self) -> u32 {
        self.time
    }

    /// Whether the capacity grows with every step.
    pub closed spec fn spec_grows(&self) -> bool {
        self.grow_population
    }

    /// The population is ranked, and every individual in it is admissible
    /// for the target at the current generation.
    pub open spec fn wf(&self) -> bool {
        &&& self.spec_population().wf()
        &&& forall|i: int|
            0 <= i < self.spec_population()@.len() ==> admissible(
                #[trigger] self.spec_population()@[i],
                self.spec_target().pixels@,
                self.spec_time() as int,
            )
    }

    /// The reproduction budget of the next step for a given growth amount:
    /// the stored capacity, plus the growth amount if the capacity grows.
    pub open spec fn budget(&self, growth: usize) -> nat {
        if self.spec_grows() {
            (self.spec_capacity() + growth) as nat
        } else {
            self.spec_capacity() as nat
        }
    }

    /// A step with the given growth amount is possible: the counter and the
    /// capacity can advance, and the population holds two parents for every
    /// round that the budget pays for.
    pub open spec fn steppable(&self, growth: usize) -> bool {
        &&& self.spec_time() < u32::MAX
        &&& self.budget(growth) <= usize::MAX
        &&& 2 * rounds(self.budget(growth)) <= self.spec_population()@.len()
    }

    /// Builds the first generation for `target`: `population_size` random
    /// chromosomes of the target's length, each scored and entered at
    /// generation 0.
    pub fn new(target: TargetImage, population_size: u16, grow_population: bool) -> (environment:
        Environment)
        ensures
            environment.wf(),
            environment.spec_target() == target,
            environment.spec_capacity() == population_size,
            environment.spec_time() == 0,
            environment.spec_grows() == grow_population,
            environment.spec_population()@.len() == population_size,
            forall|i: int|
                0 <= i < population_size ==> {
                    &&& (#[trigger] environment.spec_population()@[i]).generation == 0
                    &&& environment.spec_population()@[i].makeup.1 == initial_rate()
                },
    {
        let length = target.pixels.len();
        let rate = MutationRate {
            numer: INITIAL_RATE_NUMER,
            denom: INITIAL_RATE_DENOM,
            decays: 0,
        };
        let mut population = Population::new();
        let mut made: u16 = 0;
        while made < population_size
            invariant
                made <= population_size,
                length == target.pixels@.len(),
                rate == initial_rate(),
                population.wf(),
                population@.len() == made,
                forall|i: int|
                    0 <= i < made ==> {
                        &&& admissible(#[trigger] population@[i], target.pixels@, 0)
                        &&& population@[i].generation == 0
                        &&& population@[i].makeup.1 == initial_rate()
                    },
            decreases population_size - made,
        {
            let makeup = Chromosome::new(length, rate);
            let fitness = target.fitness(&makeup);
            let individual = Individual::new(makeup, fitness, 0);
            let ghost before = population@;
            population.push(individual);
            proof {
                lemma_slot_splits(before, individual.fitness as int);
                let slot = slot_for(before, individual.fitness as int) as int;
                assert forall|i: int| 0 <= i < made + 1 implies {
                    &&& admissible(#[trigger] population@[i], target.pixels@, 0)
                    &&& population@[i].generation == 0
                    &&& population@[i].makeup.1 == initial_rate()
                } by {
                    if i < slot {
                        assert(population@[i] == before[i]);
                    } else if i > slot {
                        assert(population@[i] == before[i - 1]);
                    }
                }
            }
            made += 1;
        }
        Environment {
            population,
            grow_population,
            target,
            capacity: population_size as usize,
            time: 0,
        }
    }

    /// The population, ranked best first.
    #[verifier::when_used_as_spec(spec_population)]
    pub fn population(&self) -> (population: &Population)
        ensures
            population == self.spec_population(),
    {
        &self.population
    }

    /// The target that the population evolves toward.
    #[verifier::when_used_as_spec(spec_target)]
    pub fn target(&self) -> (target: &TargetImage)
        ensures
            target == self.spec_target(),
    {
        &self.target
    }

    /// The stored capacity.
    #[verifier::when_used_as_spec(spec_capacity)]
    pub fn capacity(&self) -> (capacity: usize)
        ensures
            capacity == self.spec_capacity(),
    {
        self.capacity
    }

    /// The number of steps taken so far.
    #[verifier::when_used_as_spec(spec_time)]
    pub fn time(&self) -> (time: u32)
        ensures
            time == self.spec_time(),
    {
        self.time
    }

    /// Whether the capacity grows with every step.
    #[verifier::when_used_as_spec(spec_grows)]
    pub fn grows(&self) -> (grows: bool)
        ensures
            grows == self.spec_grows(),
    {
        self.grow_population
    }

    /// The best individual of the current population, if there is one.
    pub fn best(&self) -> (best: Option<&Individual>)
        ensures
            self.spec_population()@.len() == 0 ==> best is None,
            self.spec_population()@.len() > 0 ==> best == Some(&self.spec_population()@[0]),
    {
        self.population.peek()
    }

    /// A report on the best individual of the current population, if there
    /// is one.
    pub fn report(&self) -> (report: Option<Report>)
        requires
            self.wf(),
        ensures
            report is Some <==> self.spec_population()@.len() > 0,
            report matches Some(r) ==> {
                &&& r.pixels@ == self.spec_population()@[0].makeup.0@
                &&& r.width == self.spec_target().width
                &&& r.height == self.spec_target().height
                &&& r.generation == self.spec_time()
                &&& r.fitness == self.spec_population()@[0].fitness
                &&& r.error == error_score(
                    self.spec_target().pixels@,
                    self.spec_population()@[0].makeup.0@,
                )
                &&& r.capacity == self.spec_capacity()
            },
    {
        match self.population.peek() {
            None => None,
            Some(elitism) => {
                assert(admissible(
                    self.population@[0],
                    self.target.pixels@,
                    self.time as int,
                ));
                let pixels = elitism.makeup.0.clone();
                assert(pixels@ =~= elitism.makeup.0@);
                Some(
                    Report {
                        pixels,
                        width: self.target.width,
                        height: self.target.height,
                        generation: self.time,
                        fitness: elitism.fitness,
                        error: self.target.fitness_error(&elitism.makeup),
                        capacity: self.capacity,
                    },
                )
            },
        }
    }

    /// Whether a step with the given growth amount is possible.
    pub fn can_step(&self, growth: usize) -> (possible: bool)
        ensures
            possible == self.steppable(growth),
    {
        if self.time == u32::MAX {
            return false;
        }
        let budget = if self.grow_population {
            match self.capacity.checked_add(growth) {
                Some(sum) => sum,
                None => { return false; },
            }
        } else {
            self.capacity
        };
        let count = budget / STRIDE + if budget % STRIDE == 0 { 0 } else { 1 };
        count <= self.population.len() / 2
    }

    /// The reproduction pass for a given budget: in each of
    /// `rounds(budget)` rounds, takes the two best remaining individuals,
    /// breeds one child from them, scores it, and enters the parents and
    /// the child, tagged with the current generation, into a fresh
    /// population that then replaces the old one. It runs in the middle of
    /// a step, when the generation counter has advanced and every
    /// individual is from an earlier generation.
    fn increase_population(&mut self, budget: usize)
        requires
            old(self).population.wf(),
            old(self).time >= 1,
            forall|i: int|
                0 <= i < old(self).population@.len() ==> admissible(
                    #[trigger] old(self).population@[i],
                    old(self).target.pixels@,
                    old(self).time - 1,
                ),
            2 * rounds(budget as nat) <= old(self).population@.len(),
        ensures
            final(self).wf(),
            final(self).target == old(self).target,
            final(self).capacity == old(self).capacity,
            final(self).time == old(self).time,
            final(self).grow_population == old(self).grow_population,
            exists|children: Seq<Individual>| #[trigger]
                reproduced(
                    old(self).population@,
                    rounds(budget as nat),
                    old(self).target.pixels@,
                    old(self).time as int,
                    children,
                    final(self).population@,
                ),
    {
        let count = budget / STRIDE + if budget % STRIDE == 0 { 0 } else { 1 };
        let ghost before = self.population@;
        let ghost pixels = self.target.pixels@;
        let ghost now = self.time as int;
        let ghost mut children = Seq::<Individual>::empty();
        let mut next_gen_population = Population::new();
        let mut round: usize = 0;
        while round < count
            invariant
                round <= count,
                count == rounds(budget as nat),
                2 * count <= before.len(),
                descending(before),
                self.population@ == before.skip(2 * round),
                self.population.wf(),
                self.target == old(self).target,
                self.capacity == old(self).capacity,
                self.time == old(self).time,
                self.grow_population == old(self).grow_population,
                pixels == self.target.pixels@,
                now == self.time,
                now >= 1,
                forall|i: int|
                    0 <= i < before.len() ==> admissible(#[trigger] before[i], pixels, now - 1),
                children.len() == round,
                forall|k: int|
                    0 <= k < round ==> is_offspring(
                        #[trigger] children[k],
                        before[2 * k],
                        before[2 * k + 1],
                        pixels,
                        now,
                    ),
                next_gen_population.wf(),
                next_gen_population@ == assembled(reproduction_order(before, children)),
                forall|i: int|
                    0 <= i < next_gen_population@.len() ==> admissible(
                        #[trigger] next_gen_population@[i],
                        pixels,
                        now,
                    ),
            decreases count - round,
        {
            let ghost remaining = self.population@;
            assert(remaining[0] == before[2 * round]);
            assert(remaining[1] == before[2 * round + 1]);
            let parent_a = self.population.pop().unwrap();
            let parent_b = self.population.pop().unwrap();
            assert(self.population@ =~= before.skip(2 * (round + 1)));
            assert(admissible(before[2 * round], pixels, now - 1));
            assert(admissible(before[2 * round + 1], pixels, now - 1));
            let crossover = parent_a.makeup.crossover(&parent_b.makeup);
            let fitness = self.target.fitness(&crossover);
            let child = Individual::new(crossover, fitness, self.time);

            let ghost entered_0 = next_gen_population@;
            next_gen_population.push(parent_a);
            let ghost entered_1 = next_gen_population@;
            next_gen_population.push(parent_b);
            let ghost entered_2 = next_gen_population@;
            next_gen_population.push(child);
            proof {
                let grown = children.push(child);
                assert(grown.drop_last() =~= children);
                let order_0 = reproduction_order(before, children);
                let order_1 = order_0.push(parent_a);
                let order_2 = order_1.push(parent_b);
                let order_3 = order_2.push(child);
                assert(reproduction_order(before, grown) == order_3);
                assert(order_1.drop_last() =~= order_0);
                assert(order_2.drop_last() =~= order_1);
                assert(order_3.drop_last() =~= order_2);
                assert(assembled(order_1) == inserted(assembled(order_0), parent_a));
                assert(assembled(order_2) == inserted(assembled(order_1), parent_b));
                assert(assembled(order_3) == inserted(assembled(order_2), child));
                lemma_entry_keeps(entered_0, parent_a, pixels, now);
                lemma_entry_keeps(entered_1, parent_b, pixels, now);
                lemma_entry_keeps(entered_2, child, pixels, now);
                children = grown;
            }
            round += 1;
        }
        self.population = next_gen_population;
        proof {
            assert(reproduced(
                before,
                rounds(budget as nat),
                pixels,
                now,
                children,
                self.population@,
            ));
        }
    }

    /// One generation. `growth` is the number of additional slots for this
    /// round, which the caller derives from the generation counter. The
    /// step computes the budget from the stored capacity and, if the
    /// capacity grows, the growth amount; advances the generation counter;
    /// and replaces the population by the result of the reproduction pass
    /// for that budget. A growing capacity keeps the growth amount for good.
    ///
    /// The new ranking is in descending order of fitness, so popping from
    /// it yields fitness values that never increase, and it holds all
    /// parents, so the best fitness never falls.
    pub fn step(&mut self, growth: usize)
        requires
            old(self).wf(),
            old(self).steppable(growth),
        ensures
            final(self).wf(),
            final(self).spec_time() == old(self).spec_time() + 1,
            final(self).spec_capacity() == old(self).budget(growth),
            final(self).spec_grows() == old(self).spec_grows(),
            final(self).spec_target() == old(self).spec_target(),
            final(self).spec_population()@.len() == 3 * rounds(old(self).budget(growth)),
            forall|count: nat| descending(#[trigger] popped(final(self).spec_population()@, count)),
            forall|rank: int|
                0 <= rank < 2 * rounds(old(self).budget(growth))
                    ==> final(self).spec_population()@.contains(
                    #[trigger] old(self).spec_population()@[rank],
                ),
            rounds(old(self).budget(growth)) > 0 ==> final(self).spec_population()@[0].fitness
                >= old(self).spec_population()@[0].fitness,
            exists|children: Seq<Individual>| #[trigger]
                reproduced(
                    old(self).spec_population()@,
                    rounds(old(self).budget(growth)),
                    old(self).spec_target().pixels@,
                    old(self).spec_time() + 1,
                    children,
                    final(self).spec_population()@,
                ),
    {
        let mut next_capacity = self.capacity;
        if self.grow_population {
            next_capacity += growth;
        }
        self.time += 1;
        self.capacity = next_capacity;
        let ghost before = self.population@;
        let ghost pixels = self.target.pixels@;
        let ghost now = self.time as int;
        self.increase_population(next_capacity);
        proof {
            let children = choose|children: Seq<Individual>| #[trigger]
                reproduced(
                    before,
                    rounds(next_capacity as nat),
                    pixels,
                    now,
                    children,
                    self.population@,
                );
            lemma_reproduction_order_len(before, children);
            lemma_assembled_descending(reproduction_order(before, children));
            assert forall|count: nat| descending(#[trigger] popped(self.population@, count)) by {
                lemma_pop_order_non_increasing(self.population, count);
            }
            lemma_reproduction_is_elitist(
                before,
                rounds(next_capacity as nat),
                pixels,
                now,
                children,
                self.population@,
            );
            assert(reproduced(
                old(self).spec_population()@,
                rounds(old(self).budget(growth)),
                old(self).spec_target().pixels@,
                old(self).spec_time() + 1,
                children,
                self.spec_population()@,
            ));
        }
    }
}

/// When an admissible individual enters a population of admissible
/// individuals, all individuals of the new ranking are admissible.
proof fn lemma_entry_keeps(
    ranking: Seq<Individual>,
    individual: Individual,
    pixels: Seq<u8>,
    latest: int,
)
    requires
        descending(ranking),
        admissible(individual, pixels, latest),
        forall|i: int| 0 <= i < ranking.len() ==> admissible(#[trigger] ranking[i], pixels, latest),
    ensures
        forall|i: int|
            0 <= i < inserted(ranking, individual).len() ==> admissible(
                #[trigger] inserted(ranking, individual)[i],
                pixels,
                latest,
            ),
{
    lemma_slot_splits(ranking, individual.fitness as int);
    lemma_inserted_descending(ranking, individual);
    let slot = slot_for(ranking, individual.fitness as int) as int;
    let after = inserted(ranking, individual);
    assert forall|i: int| 0 <= i < after.len() implies admissible(
        #[trigger] after[i],
        pixels,
        latest,
    ) by {
        if i < slot {
            assert(after[i] == ranking[i]);
        } else if i > slot {
            assert(after[i] == ranking[i - 1]);
        }
    }
}

} // verus!
