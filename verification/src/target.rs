//! The target image and the scores of candidates against it.

use crate::chromosome::{Chromosome, Gene};
use vstd::prelude::*;

verus! {

/// An integer quality score; larger is better. It is wide enough to hold the
/// score of any buffer that fits in memory, and signed because a poor
/// candidate scores below zero.
pub type Quality = i128;

/// The largest squared difference between two bytes: 255 squared.
pub const BYTE_SPAN_SQUARED: u128 = 65025;

/// The fixed image that candidates are scored against, as raw bytes with its
/// dimensions.
pub struct TargetImage {
    pub pixels: Vec<u8>,
    pub height: u32,
    pub width: u32,
}

/// A normalized error score as the exact fraction `numer / denom`. It is 1
/// for a perfect match and falls toward 0 as the match gets worse. For an
/// empty image both parts are zero and the score is undefined.
#[derive(Clone, Copy, Debug, PartialEq, Eq, Structural)]
pub struct ErrorScore {
    pub numer: u128,
    pub denom: u128,
}

/// The absolute difference of two bytes.
pub open spec fn gap(a: u8, b: u8) -> int {
    if a >= b {
        a - b
    } else {
        b - a
    }
}

/// The sum of the first `n` target bytes.
pub open spec fn sum_upto(target: Seq<u8>, n: nat) -> int
    decreases n,
{
    if n == 0 {
        0
    } else {
        sum_upto(target, (n - 1) as nat) + target[n - 1]
    }
}

/// The sum, over the first `n` indices, of the absolute difference between
/// the target byte and the gene at that index.
pub open spec fn difference_upto(target: Seq<u8>, genes: Seq<Gene>, n: nat) -> int
    decreases n,
{
    if n == 0 {
        0
    } else {
        difference_upto(target, genes, (n - 1) as nat) + gap(target[n - 1], genes[n - 1])
    }
}

/// The sum, over the first `n` indices, of the squared difference between
/// the target byte and the gene at that index.
pub open spec fn squares_upto(target: Seq<u8>, genes: Seq<Gene>, n: nat) -> int
    decreases n,
{
    if n == 0 {
        0
    } else {
        squares_upto(target, genes, (n - 1) as nat) + gap(target[n - 1], genes[n - 1]) * gap(
            target[n - 1],
            genes[n - 1],
        )
    }
}

/// The sum of all target bytes: the score of a perfect match.
pub open spec fn baseline(target: Seq<u8>) -> int {
    sum_upto(target, target.len())
}

/// The aggregate absolute per-gene difference between target and genes.
pub open spec fn total_difference(target: Seq<u8>, genes: Seq<Gene>) -> int {
    difference_upto(target, genes, target.len())
}

/// The aggregate squared per-gene difference between target and genes.
pub open spec fn squared_error(target: Seq<u8>, genes: Seq<Gene>) -> int {
    squares_upto(target, genes, target.len())
}

/// The quality of `genes` against `target`: the baseline less the aggregate
/// difference.
pub open spec fn fitness_score(target: Seq<u8>, genes: Seq<Gene>) -> int {
    baseline(target) - total_difference(target, genes)
}

/// The normalized error score of `genes` against `target`: 1 less the mean
/// squared difference of genes and target bytes, both scaled to [0, 1].
/// With `n` genes that is `(65025 * n - squared_error) / (65025 * n)`.
pub open spec fn error_score(target: Seq<u8>, genes: Seq<Gene>) -> ErrorScore {
    ErrorScore {
        numer: (BYTE_SPAN_SQUARED * target.len() - squared_error(target, genes)) as u128,
        denom: (BYTE_SPAN_SQUARED * target.len()) as u128,
    }
}

/// Bounds on the three running sums over a prefix.
proof fn lemma_sums_bounded(target: Seq<u8>, genes: Seq<Gene>, n: nat)
    requires
        n <= target.len(),
        n <= genes.len(),
    ensures
        0 <= sum_upto(target, n) <= 255 * n,
        0 <= difference_upto(target, genes, n) <= 255 * n,
        0 <= squares_upto(target, genes, n) <= BYTE_SPAN_SQUARED * n,
    decreases n,
{
    if n > 0 {
        lemma_sums_bounded(target, genes, (n - 1) as nat);
        let g = gap(target[n - 1], genes[n - 1]);
        assert(0 <= g * g <= 65025) by (nonlinear_arith)
            requires
                0 <= g <= 255,
        ;
    }
}

/// A sequence has no difference from itself over any prefix.
proof fn lemma_no_self_difference(target: Seq<u8>, n: nat)
    requires
        n <= target.len(),
    ensures
        difference_upto(target, target, n) == 0,
        squares_upto(target, target, n) == 0,
    decreases n,
{
    if n > 0 {
        lemma_no_self_difference(target, (n - 1) as nat);
        let g = gap(target[n - 1], target[n - 1]);
        assert(g * g == 0) by (nonlinear_arith)
            requires
                g == 0,
        ;
    }
}

/// Scoring the target against itself gives the largest score that any
/// candidate can reach, the sum of all target bytes, and an error score of
/// exactly 1: no squared error, so numerator and denominator agree.
pub proof fn lemma_perfect_match(target: Seq<u8>, genes: Seq<Gene>)
    requires
        genes.len() == target.len(),
        target.len() <= usize::MAX,
    ensures
        fitness_score(target, target) == baseline(target),
        fitness_score(target, genes) <= baseline(target),
        squared_error(target, target) == 0,
        error_score(target, target).numer == error_score(target, target).denom,
{
    lemma_no_self_difference(target, target.len());
    lemma_sums_bounded(target, genes, target.len());
}

/// Of two candidates, the one with the strictly smaller aggregate
/// difference from the target has the strictly higher score.
pub proof fn lemma_fitness_monotonic(target: Seq<u8>, closer: Seq<Gene>, farther: Seq<Gene>)
    requires
        total_difference(target, closer) < total_difference(target, farther),
    ensures
        fitness_score(target, closer) > fitness_score(target, farther),
{
}

impl TargetImage {
    /// Wraps a decoded pixel buffer and its dimensions.
    pub fn new(pixels: Vec<u8>, height: u32, width: u32) -> (target: Self)
        ensures
            target.pixels == pixels,
            target.height == height,
            target.width == width,
    {
        TargetImage { pixels, height, width }
    }

    /// Scores a chromosome: the sum of the target bytes less the sum of the
    /// absolute per-gene differences.
    pub fn fitness(&self, chromosome: &Chromosome) -> (quality: Quality)
        requires
            chromosome.0@.len() == self.pixels@.len(),
        ensures
            quality == fitness_score(self.pixels@, chromosome.0@),
    {
        let n = self.pixels.len();
        let mut base: i128 = 0;
        let mut diff: i128 = 0;
        let mut idx: usize = 0;
        while idx < n
            invariant
                idx <= n,
                n == self.pixels@.len(),
                n == chromosome.0@.len(),
                base == sum_upto(self.pixels@, idx as nat),
                diff == difference_upto(self.pixels@, chromosome.0@, idx as nat),
            decreases n - idx,
        {
            proof {
                lemma_sums_bounded(self.pixels@, chromosome.0@, idx as nat);
            }
            let pixel = self.pixels[idx];
            let gene = chromosome.0[idx];
            let apart: u8 = if gene >= pixel { gene - pixel } else { pixel - gene };
            base = base + pixel as i128;
            diff = diff + apart as i128;
            idx += 1;
        }
        proof {
            lemma_sums_bounded(self.pixels@, chromosome.0@, n as nat);
        }
        base - diff
    }

    /// The normalized error score of a chromosome: 1 less the mean squared
    /// difference between genes and target bytes, both scaled to [0, 1],
    /// as an exact fraction.
    pub fn fitness_error(&self, chromosome: &Chromosome) -> (score: ErrorScore)
        requires
            chromosome.0@.len() == self.pixels@.len(),
        ensures
            score == error_score(self.pixels@, chromosome.0@),
            score.denom == BYTE_SPAN_SQUARED * self.pixels@.len(),
            score.numer == score.denom - squared_error(self.pixels@, chromosome.0@),
    {
        let n = self.pixels.len();
        let mut squares: u128 = 0;
        let mut idx: usize = 0;
        while idx < n
            invariant
                idx <= n,
                n == self.pixels@.len(),
                n == chromosome.0@.len(),
                squares == squares_upto(self.pixels@, chromosome.0@, idx as nat),
            decreases n - idx,
        {
            proof {
                lemma_sums_bounded(self.pixels@, chromosome.0@, idx as nat);
            }
            let pixel = self.pixels[idx];
            let gene = chromosome.0[idx];
            let apart: u128 = if gene >= pixel {
                (gene - pixel) as u128
            } else {
                (pixel - gene) as u128
            };
            assert(apart * apart <= 65025) by (nonlinear_arith)
                requires
                    0 <= apart <= 255,
            ;
            squares = squares + apart * apart;
            idx += 1;
        }
        proof {
            lemma_sums_bounded(self.pixels@, chromosome.0@, n as nat);
        }
        let denom: u128 = BYTE_SPAN_SQUARED * (n as u128);
        ErrorScore { numer: denom - squares, denom }
    }
}

} // verus!
