//! Evolves a population of candidate images, held as flat sequences of
//! bytes, toward a fixed target image by selection, crossover and mutation.
//!
//! - `rate`: mutation rates as exact fractions that decay with every
//!   crossover.
//! - `chromosome`: the gene sequence of a candidate, its mutation and its
//!   three crossover strategies.
//! - `target`: the target image and the scores of candidates against it.
//! - `individual`: a chromosome with its score and generation.
//! - `population`: the individuals ranked by fitness.
//! - `environment`: the run state and the generation step.
//!
//! All randomness comes from the one trusted draw in `chance`; everything
//! else is verified. Whatever a function decides from a draw is also offered
//! as a function of the drawn value.
//!
//! The library computes in integers throughout: rates and error scores are
//! exact fractions, and the growth amount of a step is an argument.

mod chance;
pub mod chromosome;
pub mod environment;
pub mod individual;
pub mod population;
pub mod rate;
pub mod target;
