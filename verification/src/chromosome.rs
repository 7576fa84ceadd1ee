//! Chromosomes: candidate images as byte sequences, with their genetic
//! operators.

use crate::chance::random_in;
use crate::rate::MutationRate;
use vstd::prelude::*;
use vstd::std_specs::cmp::PartialEqSpecImpl;

verus! {

/// One byte of a candidate image, aligned with the target byte of the same
/// index.
pub type Gene = u8;

/// Number of consecutive genes that ranged crossover takes from one parent
/// before switching to the other.
pub const BLOCK: usize = 20;

/// Strategy draws at or above this many hundredths select pixelwise crossover.
pub const PIXELWISE_FROM: u8 = 33;

/// Strategy draws at or below this many hundredths, which did not select
/// pixelwise crossover, select ranged crossover.
pub const RANGED_UPTO: u8 = 66;

/// Pixelwise draws at or above this many hundredths keep the caller's gene.
pub const KEEP_FROM: u8 = 50;

/// A candidate image: its genes and the rate at which it mutates.
#[derive(Clone)]
pub struct Chromosome(pub Vec<Gene>, pub MutationRate);

/// The way a child's genes are chosen from its two parents.
#[derive(Clone, Copy, Debug, PartialEq, Eq, Structural)]
pub enum Strategy {
    /// Every gene is chosen independently by its own draw.
    Pixelwise,
    /// Blocks of `BLOCK` genes alternate between the parents.
    Ranged,
    /// Genes up to a drawn point come from the caller, the rest from the
    /// partner.
    SinglePoint,
}

/// Recombination of two values of a type into a new one.
pub trait Crossover: Sized {
    /// The pairs that may be crossed.
    spec fn crossable(&self, partner: &Self) -> bool;

    /// What holds of every child that crossing `self` with `partner` can
    /// produce.
    spec fn bred(&self, partner: &Self, child: &Self) -> bool;

    /// Crosses `self` with `partner` into a new child.
    fn crossover(&self, partner: &Self) -> (child: Self)
        requires
            self.crossable(partner),
        ensures
            self.bred(partner, &child),
    ;
}

/// The genes that result from taking, at each index, the caller's gene where
/// `keep` holds and the partner's gene elsewhere.
pub open spec fn spliced(own: Seq<Gene>, partner: Seq<Gene>, keep: Seq<bool>) -> Seq<Gene> {
    Seq::new(own.len(), |i: int| if keep[i] { own[i] } else { partner[i] })
}

/// `child` is as long as `own`, and each of its genes is the gene of one of
/// the two parents at the same index.
pub open spec fn inherits(child: Seq<Gene>, own: Seq<Gene>, partner: Seq<Gene>) -> bool {
    &&& child.len() == own.len()
    &&& forall|i: int|
        0 <= i < child.len() ==> #[trigger] child[i] == own[i] || child[i] == partner[i]
}

/// The genes kept by pixelwise crossover for the given per-gene draws, each
/// in hundredths.
pub open spec fn pixelwise_mask(draws: Seq<u8>) -> Seq<bool> {
    Seq::new(draws.len(), |i: int| draws[i] >= KEEP_FROM)
}

/// The genes kept by ranged crossover: those in blocks of even block index.
pub open spec fn ranged_mask(n: nat) -> Seq<bool> {
    Seq::new(n, |i: int| (i / BLOCK as int) % 2 == 0)
}

/// The genes kept by single-point crossover: those up to and including
/// `point`.
pub open spec fn singlepoint_mask(n: nat, point: int) -> Seq<bool> {
    Seq::new(n, |i: int| i <= point)
}

/// The lowest crossover point for `n` genes: 45% of `n`, rounded down.
pub open spec fn point_low(n: nat) -> nat {
    n * 45 / 100
}

/// The highest crossover point for `n` genes: 65% of `n`, rounded down.
pub open spec fn point_high(n: nat) -> nat {
    n * 65 / 100
}

/// The strategy selected by a draw in hundredths. The two tests overlap:
/// every draw that fails the first passes the second.
pub open spec fn strategy_for(draw: int) -> Strategy {
    if draw >= PIXELWISE_FROM {
        Strategy::Pixelwise
    } else if draw <= RANGED_UPTO {
        Strategy::Ranged
    } else {
        Strategy::SinglePoint
    }
}

/// The largest number of trials that one mutation pass over `n` genes can
/// run: one less than a fifth of `n`, and never less than 5.
pub open spec fn trial_limit(n: nat) -> nat {
    if n / 5 > 6 {
        (n / 5 - 1) as nat
    } else {
        5
    }
}

/// The number of indices at which two gene sequences differ.
pub open spec fn differing(a: Seq<Gene>, b: Seq<Gene>) -> nat
    decreases a.len(),
{
    if a.len() == 0 || b.len() == 0 {
        0
    } else {
        differing(a.drop_last(), b.drop_last()) + if a.last() != b.last() {
            1nat
        } else {
            0nat
        }
    }
}

/// The genes after the outcomes of a run of mutation trials have been
/// applied in order: a trial that failed changes nothing, a trial that
/// succeeded overwrites the gene at its position.
pub open spec fn overwritten(genes: Seq<Gene>, trials: Seq<Option<(usize, Gene)>>) -> Seq<Gene>
    decreases trials.len(),
{
    if trials.len() == 0 {
        genes
    } else {
        let earlier = overwritten(genes, trials.drop_last());
        match trials.last() {
            Some((index, gene)) => earlier.update(index as int, gene),
            None => earlier,
        }
    }
}

/// Every successful trial among `trials` names a position below `n`.
pub open spec fn trials_within(trials: Seq<Option<(usize, Gene)>>, n: nat) -> bool {
    forall|t: int|
        0 <= t < trials.len() ==> match #[trigger] trials[t] {
            Some((index, _)) => index < n,
            None => true,
        }
}

/// Every splice of two equally long parents inherits from them.
pub proof fn lemma_spliced_inherits(own: Seq<Gene>, partner: Seq<Gene>, keep: Seq<bool>)
    ensures
        inherits(spliced(own, partner, keep), own, partner),
{
}

/// No draw selects single-point crossover: a draw below `PIXELWISE_FROM` is
/// also at most `RANGED_UPTO`.
pub proof fn lemma_single_point_never_selected(draw: int)
    ensures
        strategy_for(draw) != Strategy::SinglePoint,
        strategy_for(draw) == Strategy::Pixelwise <==> draw >= PIXELWISE_FROM,
{
}

/// Overwriting one gene changes the number of differences by at most one.
proof fn lemma_differing_update(a: Seq<Gene>, b: Seq<Gene>, index: int, gene: Gene)
    requires
        a.len() == b.len(),
        0 <= index < b.len(),
    ensures
        differing(a, b.update(index, gene)) <= differing(a, b) + 1,
    decreases a.len(),
{
    let c = b.update(index, gene);
    if index == b.len() - 1 {
        assert(c.drop_last() =~= b.drop_last());
    } else {
        assert(c.drop_last() =~= b.drop_last().update(index, gene));
        lemma_differing_update(a.drop_last(), b.drop_last(), index, gene);
    }
}

/// A run of trials keeps the length of the genes and changes at most one
/// position per trial.
pub proof fn lemma_overwritten_bounded(genes: Seq<Gene>, trials: Seq<Option<(usize, Gene)>>)
    requires
        trials_within(trials, genes.len()),
    ensures
        overwritten(genes, trials).len() == genes.len(),
        differing(genes, overwritten(genes, trials)) <= trials.len(),
    decreases trials.len(),
{
    if trials.len() == 0 {
        lemma_differing_self(genes);
    } else {
        let front = trials.drop_last();
        assert forall|t: int| 0 <= t < front.len() implies match #[trigger] front[t] {
            Some((index, _)) => index < genes.len(),
            None => true,
        } by {
            assert(front[t] == trials[t]);
        }
        lemma_overwritten_bounded(genes, front);
        match trials.last() {
            Some((index, gene)) => {
                assert(trials[trials.len() - 1] == trials.last());
                lemma_differing_update(genes, overwritten(genes, front), index as int, gene);
            },
            None => {},
        }
    }
}

/// A sequence does not differ from itself.
proof fn lemma_differing_self(a: Seq<Gene>)
    ensures
        differing(a, a) == 0,
    decreases a.len(),
{
    if a.len() > 0 {
        lemma_differing_self(a.drop_last());
    }
}

/// Draws one gene uniformly from the full byte range.
fn draw_gene() -> Gene {
    random_in(0, 256) as u8
}

/// Draws a number of hundredths uniformly from 0 up to, but not including,
/// 100.
fn draw_hundredths() -> (draw: u8)
    ensures
        draw < 100,
{
    random_in(0, 100) as u8
}

/// Selects the crossover strategy for a draw in hundredths.
pub fn select_strategy(draw: u8) -> (strategy: Strategy)
    ensures
        strategy == strategy_for(draw as int),
{
    if draw >= PIXELWISE_FROM {
        Strategy::Pixelwise
    } else if draw <= RANGED_UPTO {
        Strategy::Ranged
    } else {
        Strategy::SinglePoint
    }
}

impl Chromosome {
    /// Builds a chromosome of `length` genes, each drawn uniformly from the
    /// full byte range, and runs one mutation pass over it.
    pub fn new(length: usize, mutation_rate: MutationRate) -> (chromosome: Chromosome)
        requires
            mutation_rate.wf(),
        ensures
            chromosome.0@.len() == length,
            chromosome.1 == mutation_rate,
    {
        let mut genes: Vec<Gene> = Vec::new();
        let mut filled: usize = 0;
        while filled < length
            invariant
                filled <= length,
                genes@.len() == filled,
            decreases length - filled,
        {
            genes.push(draw_gene());
            filled += 1;
        }
        let mut chromosome = Chromosome(genes, mutation_rate);
        chromosome.mutate();
        chromosome
    }

    /// Overwrites the gene at `index`.
    pub fn set_gene(&mut self, index: usize, gene: Gene)
        requires
            index < old(self).0@.len(),
        ensures
            final(self).0@ == old(self).0@.update(index as int, gene),
            final(self).1 == old(self).1,
    {
        self.0.set(index, gene);
    }

    /// Applies the outcomes of a run of mutation trials in order: each
    /// trial that succeeded overwrites the gene at its position.
    pub fn mutate_with(&mut self, trials: &Vec<Option<(usize, Gene)>>)
        requires
            trials_within(trials@, old(self).0@.len()),
        ensures
            final(self).0@ == overwritten(old(self).0@, trials@),
            final(self).0@.len() == old(self).0@.len(),
            final(self).1 == old(self).1,
    {
        let count = trials.len();
        let mut applied: usize = 0;
        while applied < count
            invariant
                applied <= count,
                count == trials@.len(),
                trials_within(trials@, old(self).0@.len()),
                self.0@.len() == old(self).0@.len(),
                self.0@ == overwritten(old(self).0@, trials@.take(applied as int)),
                self.1 == old(self).1,
            decreases count - applied,
        {
            proof {
                assert(trials@.take(applied + 1).drop_last() =~= trials@.take(applied as int));
            }
            match trials[applied] {
                Some((index, gene)) => {
                    self.set_gene(index, gene);
                },
                None => {},
            }
            applied += 1;
        }
        assert(trials@.take(count as int) =~= trials@);
    }

    /// Runs one mutation pass: draws a number of trials from 5 up to, but
    /// not including, a fifth of the gene count (exactly 5 where that range
    /// would be empty), and on each trial that succeeds at the chromosome's
    /// rate overwrites one uniformly drawn position with a uniformly drawn
    /// gene. Trials may hit the same position more than once. An empty
    /// chromosome has no position to overwrite and stays as it is.
    pub fn mutate(&mut self)
        requires
            old(self).1.wf(),
        ensures
            final(self).0@.len() == old(self).0@.len(),
            forall|i: int|
                0 <= i < final(self).0@.len() ==> 0 <= #[trigger] final(self).0@[i] <= 255,
            final(self).1 == old(self).1,
            exists|trials: Seq<Option<(usize, Gene)>>|
                {
                    &&& old(self).0@.len() > 0 ==> 5 <= trials.len()
                    &&& trials.len() <= trial_limit(old(self).0@.len())
                    &&& trials_within(trials, old(self).0@.len())
                    &&& final(self).0@ == #[trigger] overwritten(old(self).0@, trials)
                },
            differing(old(self).0@, final(self).0@) <= trial_limit(old(self).0@.len()),
    {
        let n = self.0.len();
        let mut trials: Vec<Option<(usize, Gene)>> = Vec::new();
        if n > 0 {
            let fifth = n / 5;
            let upper: usize = if fifth > 6 { fifth } else { 6 };
            let count = random_in(5, upper);
            let mut run: usize = 0;
            while run < count
                invariant
                    run <= count,
                    n > 0,
                    self.1.wf(),
                    trials@.len() == run,
                    trials_within(trials@, n as nat),
                decreases count - run,
            {
                let outcome = if self.1.trial() {
                    Some((random_in(0, n), draw_gene()))
                } else {
                    None
                };
                trials.push(outcome);
                run += 1;
            }
        }
        proof {
            lemma_overwritten_bounded(self.0@, trials@);
        }
        self.mutate_with(&trials);
    }

    /// Takes, at each index, the caller's gene where `keep` holds and the
    /// partner's gene elsewhere.
    pub fn splice(&self, partner: &Chromosome, keep: &Vec<bool>) -> (genes: Vec<Gene>)
        requires
            self.0@.len() == partner.0@.len(),
            self.0@.len() == keep@.len(),
        ensures
            genes@ == spliced(self.0@, partner.0@, keep@),
    {
        let n = self.0.len();
        let mut genes: Vec<Gene> = Vec::new();
        let mut idx: usize = 0;
        while idx < n
            invariant
                idx <= n,
                n == self.0@.len(),
                n == partner.0@.len(),
                n == keep@.len(),
                genes@.len() == idx,
                forall|i: int| 0 <= i < idx ==> genes@[i] == spliced(self.0@, partner.0@, keep@)[i],
            decreases n - idx,
        {
            let gene = if keep[idx] { self.0[idx] } else { partner.0[idx] };
            genes.push(gene);
            idx += 1;
        }
        assert(genes@ =~= spliced(self.0@, partner.0@, keep@));
        genes
    }

    /// Pixelwise crossover for given draws: at each index, keeps the
    /// caller's gene where the draw for that index, in hundredths, is at
    /// least `KEEP_FROM`, and takes the partner's gene elsewhere.
    pub fn pixelwise_from(&self, other: &Chromosome, draws: &Vec<u8>) -> (genes: Vec<Gene>)
        requires
            self.0@.len() == other.0@.len(),
            self.0@.len() == draws@.len(),
        ensures
            genes@ == spliced(self.0@, other.0@, pixelwise_mask(draws@)),
    {
        let n = self.0.len();
        let mut keep: Vec<bool> = Vec::new();
        let mut idx: usize = 0;
        while idx < n
            invariant
                idx <= n,
                n == draws@.len(),
                keep@.len() == idx,
                forall|i: int| 0 <= i < idx ==> keep@[i] == pixelwise_mask(draws@)[i],
            decreases n - idx,
        {
            keep.push(draws[idx] >= KEEP_FROM);
            idx += 1;
        }
        assert(keep@ =~= pixelwise_mask(draws@));
        self.splice(other, &keep)
    }

    /// Pixelwise crossover: draws once per gene and keeps the caller's gene
    /// or takes the partner's accordingly.
    pub fn pixelwise_crossover(&self, other: &Chromosome) -> (genes: Vec<Gene>)
        requires
            self.0@.len() == other.0@.len(),
        ensures
            exists|draws: Seq<u8>|
                {
                    &&& draws.len() == self.0@.len()
                    &&& forall|i: int| 0 <= i < draws.len() ==> #[trigger] draws[i] < 100
                    &&& genes@ == spliced(self.0@, other.0@, #[trigger] pixelwise_mask(draws))
                },
            inherits(genes@, self.0@, other.0@),
    {
        let n = self.0.len();
        let mut draws: Vec<u8> = Vec::new();
        let mut idx: usize = 0;
        while idx < n
            invariant
                idx <= n,
                draws@.len() == idx,
                forall|i: int| 0 <= i < idx ==> #[trigger] draws@[i] < 100,
            decreases n - idx,
        {
            draws.push(draw_hundredths());
            idx += 1;
        }
        self.pixelwise_from(other, &draws)
    }

    /// Ranged crossover: blocks of `BLOCK` genes alternate between the
    /// parents, starting with the caller's.
    pub fn ranged_crossover(&self, other: &Chromosome) -> (genes: Vec<Gene>)
        requires
            self.0@.len() == other.0@.len(),
        ensures
            genes@ == spliced(self.0@, other.0@, ranged_mask(self.0@.len())),
            inherits(genes@, self.0@, other.0@),
    {
        let n = self.0.len();
        let mut keep: Vec<bool> = Vec::new();
        let mut idx: usize = 0;
        while idx < n
            invariant
                idx <= n,
                keep@.len() == idx,
                forall|i: int| 0 <= i < idx ==> keep@[i] == ranged_mask(n as nat)[i],
            decreases n - idx,
        {
            keep.push((idx / BLOCK) % 2 == 0);
            idx += 1;
        }
        assert(keep@ =~= ranged_mask(n as nat));
        self.splice(other, &keep)
    }

    /// Single-point crossover at a given point: genes up to and including
    /// `point` come from the caller, the rest from the partner.
    pub fn singlepoint_at(&self, other: &Chromosome, point: usize) -> (genes: Vec<Gene>)
        requires
            self.0@.len() == other.0@.len(),
        ensures
            genes@ == spliced(self.0@, other.0@, singlepoint_mask(self.0@.len(), point as int)),
    {
        let n = self.0.len();
        let mut keep: Vec<bool> = Vec::new();
        let mut idx: usize = 0;
        while idx < n
            invariant
                idx <= n,
                keep@.len() == idx,
                forall|i: int|
                    0 <= i < idx ==> keep@[i] == singlepoint_mask(n as nat, point as int)[i],
            decreases n - idx,
        {
            keep.push(idx <= point);
            idx += 1;
        }
        assert(keep@ =~= singlepoint_mask(n as nat, point as int));
        self.splice(other, &keep)
    }

    /// Single-point crossover: draws the crossover point uniformly between
    /// 45% and 65% of the gene count, both rounded down and both included.
    pub fn singlepoint_crossover(&self, other: &Chromosome) -> (genes: Vec<Gene>)
        requires
            self.0@.len() == other.0@.len(),
        ensures
            exists|point: int|
                point_low(self.0@.len()) <= point <= point_high(self.0@.len()) && genes@
                    == spliced(
                    self.0@,
                    other.0@,
                    #[trigger] singlepoint_mask(self.0@.len(), point),
                ),
            inherits(genes@, self.0@, other.0@),
    {
        let n = self.0.len();
        let low = ((n as u128) * 45 / 100) as usize;
        let high = ((n as u128) * 65 / 100) as usize;
        let point = random_in(low, high + 1);
        self.singlepoint_at(other, point)
    }

    /// Crossover for a given strategy draw, in hundredths: the rest of
    /// `crossover` once the strategy draw is known. A draw below
    /// `PIXELWISE_FROM` gives exactly the ranged splice.
    pub fn crossover_drawn(&self, partner: &Chromosome, draw: u8) -> (child: Chromosome)
        requires
            self.0@.len() == partner.0@.len(),
            self.1.decays < u64::MAX,
        ensures
            inherits(child.0@, self.0@, partner.0@),
            child.1 == self.1.decayed(),
            draw < PIXELWISE_FROM ==> child.0@ == spliced(
                self.0@,
                partner.0@,
                ranged_mask(self.0@.len()),
            ),
    {
        let genes = match select_strategy(draw) {
            Strategy::Pixelwise => self.pixelwise_crossover(partner),
            Strategy::Ranged => self.ranged_crossover(partner),
            Strategy::SinglePoint => self.singlepoint_crossover(partner),
        };
        Chromosome(genes, self.1.decay())
    }
}

/// Chromosomes are equal when their genes are equal, whatever their rates.
impl PartialEq for Chromosome {
    fn eq(&self, other: &Chromosome) -> (equal: bool) {
        let n = self.0.len();
        if n != other.0.len() {
            return false;
        }
        let mut idx: usize = 0;
        while idx < n
            invariant
                idx <= n,
                n == self.0@.len(),
                n == other.0@.len(),
                forall|i: int| 0 <= i < idx ==> self.0@[i] == other.0@[i],
            decreases n - idx,
        {
            if self.0[idx] != other.0[idx] {
                return false;
            }
            idx += 1;
        }
        assert(self.0@ =~= other.0@);
        true
    }
}

impl PartialEqSpecImpl for Chromosome {
    open spec fn obeys_eq_spec() -> bool {
        true
    }

    open spec fn eq_spec(&self, other: &Chromosome) -> bool {
        self.0@ == other.0@
    }
}

impl Eq for Chromosome {

}

impl Crossover for Chromosome {
    /// Two chromosomes may be crossed when they are equally long and the
    /// caller's decay count can still advance.
    open spec fn crossable(&self, partner: &Chromosome) -> bool {
        &&& self.0@.len() == partner.0@.len()
        &&& self.1.decays < u64::MAX
    }

    /// The child is as long as its parents, takes each gene from one of
    /// them at the same index, and mutates at the caller's rate decayed
    /// once.
    open spec fn bred(&self, partner: &Chromosome, child: &Chromosome) -> bool {
        &&& inherits(child.0@, self.0@, partner.0@)
        &&& child.1 == self.1.decayed()
    }

    /// Draws a strategy and recombines the two chromosomes by it.
    fn crossover(&self, partner: &Chromosome) -> (child: Chromosome) {
        let draw = draw_hundredths();
        self.crossover_drawn(partner, draw)
    }
}

} // verus!
