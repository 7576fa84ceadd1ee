use image_evolver::chromosome::Chromosome;
use image_evolver::rate::MutationRate;
use image_evolver::target::{ErrorScore, TargetImage};

fn rate() -> MutationRate {
    MutationRate::new(1, 5).unwrap()
}

fn value(score: ErrorScore) -> f64 {
    score.numer as f64 / score.denom as f64
}

#[test]
fn target_new_keeps_its_arguments() {
    let target = TargetImage::new(vec![1, 2, 3, 4, 5, 6], 2, 1);
    assert_eq!(target.pixels, vec![1, 2, 3, 4, 5, 6]);
    assert_eq!(target.height, 2);
    assert_eq!(target.width, 1);
}

#[test]
fn matching_chromosome_scores_the_baseline() {
    let target = TargetImage::new(vec![10, 10, 10, 10], 2, 2);
    let chromosome = Chromosome(vec![10, 10, 10, 10], rate());
    assert_eq!(target.fitness(&chromosome), 40);
    let error = target.fitness_error(&chromosome);
    assert_eq!(error.numer, error.denom);
    assert_eq!(error.denom, 4 * 65025);
    assert_eq!(value(error), 1.0);
}

#[test]
fn opposite_chromosome_scores_below_zero() {
    let target = TargetImage::new(vec![255, 0], 1, 2);
    let chromosome = Chromosome(vec![0, 255], rate());
    assert_eq!(target.fitness(&chromosome), 255 - 510);
    assert_eq!(target.fitness(&chromosome), -255);
    let error = target.fitness_error(&chromosome);
    assert_eq!(error, ErrorScore { numer: 0, denom: 2 * 65025 });
    assert_eq!(value(error), 0.0);
}

#[test]
fn target_against_itself_is_a_perfect_match() {
    let pixels: Vec<u8> = vec![0, 1, 17, 128, 200, 254, 255, 3, 90];
    let sum: i128 = pixels.iter().map(|&p| p as i128).sum();
    let target = TargetImage::new(pixels.clone(), 3, 1);
    let chromosome = Chromosome(pixels, rate());
    assert_eq!(target.fitness(&chromosome), sum);
    let error = target.fitness_error(&chromosome);
    assert_eq!(error.numer, error.denom);
    assert_eq!(value(error), 1.0);
}

#[test]
fn no_candidate_beats_the_perfect_match() {
    let pixels: Vec<u8> = vec![0, 255, 128, 64];
    let target = TargetImage::new(pixels.clone(), 2, 2);
    let best = target.fitness(&Chromosome(pixels, rate()));
    for genes in [vec![0, 0, 0, 0], vec![255, 255, 255, 255], vec![1, 254, 127, 65]] {
        assert!(target.fitness(&Chromosome(genes, rate())) < best);
    }
}

#[test]
fn smaller_aggregate_difference_scores_higher() {
    let target = TargetImage::new(vec![100, 100, 100], 1, 1);
    // Differences 5 + 0 + 5 = 10 against 1 + 1 + 9 = 11.
    let closer = Chromosome(vec![105, 100, 95], rate());
    let farther = Chromosome(vec![99, 101, 109], rate());
    assert_eq!(target.fitness(&closer), 300 - 10);
    assert_eq!(target.fitness(&farther), 300 - 11);
    assert!(target.fitness(&closer) > target.fitness(&farther));
}

#[test]
fn equal_aggregate_difference_scores_equal() {
    let target = TargetImage::new(vec![50, 60], 1, 2);
    let one = Chromosome(vec![40, 60], rate());
    let other = Chromosome(vec![55, 65], rate());
    assert_eq!(target.fitness(&one), target.fitness(&other));
}

#[test]
fn error_score_is_one_less_the_mean_squared_error() {
    let target = TargetImage::new(vec![0, 255, 10, 200], 2, 2);
    let chromosome = Chromosome(vec![255, 255, 13, 100], rate());
    let error = target.fitness_error(&chromosome);
    let squares: u128 = 255 * 255 + 0 + 3 * 3 + 100 * 100;
    assert_eq!(error.denom, 4 * 65025);
    assert_eq!(error.numer, 4 * 65025 - squares);
    let pairs: [(f64, f64); 4] = [(0.0, 255.0), (255.0, 255.0), (10.0, 13.0), (200.0, 100.0)];
    let mse: f64 = pairs.iter().map(|(y, g)| (y / 255.0 - g / 255.0).powi(2)).sum::<f64>() / 4.0;
    assert!((value(error) - (1.0 - mse)).abs() < 1e-12);
}

#[test]
fn half_wrong_chromosome_has_error_score_one_half() {
    let target = TargetImage::new(vec![0, 255], 1, 2);
    let chromosome = Chromosome(vec![255, 255], rate());
    let error = target.fitness_error(&chromosome);
    assert_eq!(error, ErrorScore { numer: 65025, denom: 130050 });
    assert_eq!(value(error), 0.5);
}

#[test]
fn empty_target_scores_zero_and_has_no_error_score() {
    let target = TargetImage::new(Vec::new(), 0, 0);
    let chromosome = Chromosome(Vec::new(), rate());
    assert_eq!(target.fitness(&chromosome), 0);
    let error = target.fitness_error(&chromosome);
    assert_eq!(error, ErrorScore { numer: 0, denom: 0 });
    assert!(value(error).is_nan());
}

#[test]
fn fitness_of_a_large_buffer_is_exact() {
    let n = 1_000_000usize;
    let target = TargetImage::new(vec![255; n], 1000, 1000);
    let chromosome = Chromosome(vec![0; n], rate());
    assert_eq!(target.fitness(&chromosome), 0);
    let white = Chromosome(vec![255; n], rate());
    assert_eq!(target.fitness(&white), 255_000_000);
    assert_eq!(target.fitness_error(&chromosome).numer, 0);
}
