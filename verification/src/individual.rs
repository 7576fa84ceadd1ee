//! Individuals: a chromosome with its score and the generation that made it.

use crate::chromosome::Chromosome;
use crate::target::Quality;
use std::cmp::Ordering;
use vstd::prelude::*;
use vstd::std_specs::cmp::{PartialEqSpecImpl, PartialOrdSpecImpl};

verus! {

/// A scored chromosome. The score is fixed at construction and never
/// recomputed.
#[derive(Clone)]
pub struct Individual {
    pub makeup: Chromosome,
    pub fitness: Quality,
    pub generation: u32,
}

impl Individual {
    /// Pairs a chromosome with its score and the generation that made it.
    pub fn new(makeup: Chromosome, fitness: Quality, generation: u32) -> (individual: Individual)
        ensures
            individual.makeup == makeup,
            individual.fitness == fitness,
            individual.generation == generation,
    {
        Individual { makeup, fitness, generation }
    }
}

/// Individuals are equal when their fitness is equal, whatever their
/// chromosomes hold.
impl PartialEq for Individual {
    fn eq(&self, other: &Individual) -> (equal: bool) {
        self.fitness == other.fitness
    }
}

impl PartialEqSpecImpl for Individual {
    open spec fn obeys_eq_spec() -> bool {
        true
    }

    open spec fn eq_spec(&self, other: &Individual) -> bool {
        self.fitness == other.fitness
    }
}

impl Eq for Individual {

}

/// Individuals are ordered by fitness alone, so any two are comparable.
impl PartialOrd for Individual {
    fn partial_cmp(&self, other: &Individual) -> (order: Option<Ordering>) {
        if self.fitness < other.fitness {
            Some(Ordering::Less)
        } else if self.fitness > other.fitness {
            Some(Ordering::Greater)
        } else {
            Some(Ordering::Equal)
        }
    }
}

impl PartialOrdSpecImpl for Individual {
    open spec fn obeys_partial_cmp_spec() -> bool {
        true
    }

    open spec fn partial_cmp_spec(&self, other: &Individual) -> Option<Ordering> {
        if self.fitness < other.fitness {
            Some(Ordering::Less)
        } else if self.fitness > other.fitness {
            Some(Ordering::Greater)
        } else {
            Some(Ordering::Equal)
        }
    }
}

} // verus!
