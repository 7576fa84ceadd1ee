use image_evolver::chromosome::{select_strategy, Chromosome, Crossover, Strategy};
use image_evolver::rate::MutationRate;

fn rate() -> MutationRate {
    MutationRate::new(1, 5).unwrap()
}

fn certain() -> MutationRate {
    MutationRate::new(1, 1).unwrap()
}

fn inherits(child: &[u8], own: &[u8], partner: &[u8]) -> bool {
    child.len() == own.len()
        && (0..child.len()).all(|i| child[i] == own[i] || child[i] == partner[i])
}

fn differing(a: &[u8], b: &[u8]) -> usize {
    a.iter().zip(b.iter()).filter(|(x, y)| x != y).count()
}

fn ramp(n: usize) -> Vec<u8> {
    (0..n).map(|i| (i % 251) as u8).collect()
}

#[test]
fn rate_new_accepts_fractions_in_the_unit_interval() {
    let fifth = MutationRate::new(1, 5).unwrap();
    assert_eq!((fifth.numer, fifth.denom, fifth.decays), (1, 5, 0));
    let one = MutationRate::new(7, 7).unwrap();
    assert_eq!((one.numer, one.denom, one.decays), (7, 7, 0));
}

#[test]
fn rate_new_rejects_fractions_outside_the_unit_interval() {
    assert!(MutationRate::new(0, 5).is_none());
    assert!(MutationRate::new(6, 5).is_none());
    assert!(MutationRate::new(0, 0).is_none());
    assert!(MutationRate::new(1, 0).is_none());
}

#[test]
fn decay_advances_the_count_and_keeps_the_base() {
    let once = rate().decay();
    assert_eq!((once.numer, once.denom, once.decays), (1, 5, 1));
    let twice = once.decay();
    assert_eq!((twice.numer, twice.denom, twice.decays), (1, 5, 2));
}

#[test]
fn decayed_rate_is_the_starting_rate_times_the_factor() {
    // 1/5 after three decays is 1/5 * (19999/20000)^3.
    let mut r = rate();
    for _ in 0..3 {
        r = r.decay();
    }
    let value = r.numer as f64 / r.denom as f64 * (19999.0f64 / 20000.0).powi(r.decays as i32);
    let expected = 0.2 * 0.99995f64.powi(3);
    assert!((value - expected).abs() < 1e-15);
    assert!(value < 0.2 && value > 0.0);
}

#[test]
fn select_strategy_follows_the_overlapping_thresholds() {
    assert_eq!(select_strategy(0), Strategy::Ranged);
    assert_eq!(select_strategy(32), Strategy::Ranged);
    assert_eq!(select_strategy(33), Strategy::Pixelwise);
    assert_eq!(select_strategy(66), Strategy::Pixelwise);
    assert_eq!(select_strategy(67), Strategy::Pixelwise);
    assert_eq!(select_strategy(99), Strategy::Pixelwise);
}

#[test]
fn no_draw_selects_single_point() {
    for draw in 0..=255u8 {
        assert_ne!(select_strategy(draw), Strategy::SinglePoint);
    }
    let ranged = (0..100u8).filter(|&d| select_strategy(d) == Strategy::Ranged).count();
    let pixelwise = (0..100u8).filter(|&d| select_strategy(d) == Strategy::Pixelwise).count();
    assert_eq!((ranged, pixelwise), (33, 67));
}

#[test]
fn splice_takes_own_genes_where_asked() {
    let a = Chromosome(vec![1, 2, 3, 4], rate());
    let b = Chromosome(vec![5, 6, 7, 8], rate());
    assert_eq!(a.splice(&b, &vec![true, false, false, true]), vec![1, 6, 7, 4]);
    assert_eq!(a.splice(&b, &vec![true; 4]), vec![1, 2, 3, 4]);
    assert_eq!(a.splice(&b, &vec![false; 4]), vec![5, 6, 7, 8]);
}

#[test]
fn pixelwise_keeps_own_gene_from_one_half_up() {
    let a = Chromosome(vec![1, 1, 1, 1, 1], rate());
    let b = Chromosome(vec![2, 2, 2, 2, 2], rate());
    assert_eq!(a.pixelwise_from(&b, &vec![0, 49, 50, 51, 99]), vec![2, 2, 1, 1, 1]);
}

#[test]
fn pixelwise_crossover_takes_every_gene_from_a_parent() {
    let a = Chromosome(vec![1; 400], rate());
    let b = Chromosome(vec![2; 400], rate());
    let genes = a.pixelwise_crossover(&b);
    assert!(inherits(&genes, &a.0, &b.0));
    // With 400 fair draws both parents contribute.
    assert!(genes.contains(&1));
    assert!(genes.contains(&2));
}

#[test]
fn ranged_crossover_alternates_blocks_of_twenty() {
    let a = Chromosome(vec![1; 45], rate());
    let b = Chromosome(vec![2; 45], rate());
    let genes = a.ranged_crossover(&b);
    let mut expected = vec![1u8; 20];
    expected.extend(vec![2u8; 20]);
    expected.extend(vec![1u8; 5]);
    assert_eq!(genes, expected);
}

#[test]
fn ranged_crossover_of_short_chromosomes_is_the_caller() {
    let a = Chromosome(ramp(20), rate());
    let b = Chromosome(vec![255; 20], rate());
    assert_eq!(a.ranged_crossover(&b), ramp(20));
}

#[test]
fn singlepoint_at_switches_after_the_point() {
    let a = Chromosome(vec![1; 6], rate());
    let b = Chromosome(vec![2; 6], rate());
    assert_eq!(a.singlepoint_at(&b, 0), vec![1, 2, 2, 2, 2, 2]);
    assert_eq!(a.singlepoint_at(&b, 3), vec![1, 1, 1, 1, 2, 2]);
    assert_eq!(a.singlepoint_at(&b, 5), vec![1; 6]);
    assert_eq!(a.singlepoint_at(&b, 100), vec![1; 6]);
}

#[test]
fn singlepoint_takes_partner_genes_at_their_own_index() {
    let a = Chromosome(vec![0; 5], rate());
    let b = Chromosome(vec![10, 11, 12, 13, 14], rate());
    assert_eq!(a.singlepoint_at(&b, 1), vec![0, 0, 12, 13, 14]);
}

#[test]
fn singlepoint_crossover_draws_the_point_in_range() {
    let a = Chromosome(vec![1; 100], rate());
    let b = Chromosome(vec![2; 100], rate());
    let mut seen = Vec::new();
    for _ in 0..300 {
        let genes = a.singlepoint_crossover(&b);
        assert_eq!(genes.len(), 100);
        let kept = genes.iter().filter(|&&g| g == 1).count();
        // Genes 0..=point are the caller's, with 45 <= point <= 65.
        assert!((46..=66).contains(&kept));
        assert!(genes[..kept].iter().all(|&g| g == 1));
        assert!(genes[kept..].iter().all(|&g| g == 2));
        if !seen.contains(&kept) {
            seen.push(kept);
        }
    }
    assert!(seen.len() > 1);
}

#[test]
fn singlepoint_crossover_of_one_gene_keeps_the_caller() {
    let a = Chromosome(vec![1], rate());
    let b = Chromosome(vec![2], rate());
    assert_eq!(a.singlepoint_crossover(&b), vec![1]);
}

#[test]
fn crossover_drawn_below_the_threshold_is_ranged() {
    let a = Chromosome(vec![1; 45], rate());
    let b = Chromosome(vec![2; 45], rate());
    for draw in [0u8, 10, 32] {
        let child = a.crossover_drawn(&b, draw);
        assert_eq!(child.0, a.ranged_crossover(&b));
        assert_eq!(child.1, rate().decay());
    }
}

#[test]
fn crossover_drawn_from_the_threshold_up_is_pixelwise() {
    let a = Chromosome(vec![1; 400], rate());
    let b = Chromosome(vec![2; 400], rate());
    let ranged = a.ranged_crossover(&b);
    let child = a.crossover_drawn(&b, 33);
    assert!(inherits(&child.0, &a.0, &b.0));
    assert_ne!(child.0, ranged);
}

#[test]
fn crossover_child_inherits_every_gene() {
    let a = Chromosome(ramp(137), rate());
    let b = Chromosome(ramp(137).into_iter().rev().collect(), rate());
    for _ in 0..50 {
        let child = a.crossover(&b);
        assert_eq!(child.0.len(), 137);
        assert!(inherits(&child.0, &a.0, &b.0));
    }
}

#[test]
fn crossover_decays_the_callers_rate() {
    let a = Chromosome(vec![1; 10], MutationRate::new(1, 2).unwrap());
    let b = Chromosome(vec![2; 10], MutationRate::new(1, 3).unwrap());
    let child = a.crossover(&b);
    assert_eq!((child.1.numer, child.1.denom, child.1.decays), (1, 2, 1));
}

#[test]
fn successive_crossovers_compound_the_decay() {
    let partner = Chromosome(vec![9; 30], rate());
    let mut line = Chromosome(vec![3; 30], rate());
    let mut last = 0.2f64;
    for k in 1..=25u64 {
        line = line.crossover(&partner);
        assert_eq!((line.1.numer, line.1.denom, line.1.decays), (1, 5, k));
        let value = 0.2 * (19999.0f64 / 20000.0).powi(k as i32);
        assert!(value < last && value > 0.0);
        last = value;
    }
}

#[test]
fn crossover_of_empty_chromosomes_is_empty() {
    let a = Chromosome(Vec::new(), rate());
    let b = Chromosome(Vec::new(), rate());
    let child = a.crossover(&b);
    assert!(child.0.is_empty());
    assert_eq!(child.1.decays, 1);
}

#[test]
fn new_chromosome_has_the_asked_length_and_rate() {
    for length in [0usize, 1, 4, 29, 30, 31, 300] {
        let chromosome = Chromosome::new(length, rate());
        assert_eq!(chromosome.0.len(), length);
        assert_eq!(chromosome.1, rate());
    }
}

#[test]
fn new_chromosomes_are_drawn_afresh() {
    let one = Chromosome::new(64, rate());
    let other = Chromosome::new(64, rate());
    assert!(one != other);
    let big = Chromosome::new(4096, rate());
    assert!(big.0.iter().any(|&g| g < 64));
    assert!(big.0.iter().any(|&g| g >= 192));
}

#[test]
fn set_gene_overwrites_one_position() {
    let mut chromosome = Chromosome(vec![1, 2, 3], rate());
    chromosome.set_gene(1, 9);
    assert_eq!(chromosome.0, vec![1, 9, 3]);
    assert_eq!(chromosome.1, rate());
}

#[test]
fn mutate_with_applies_the_trials_in_order() {
    let mut chromosome = Chromosome(vec![1, 2, 3, 4], rate());
    chromosome.mutate_with(&vec![Some((0, 9)), None, Some((3, 7)), Some((0, 8))]);
    assert_eq!(chromosome.0, vec![8, 2, 3, 7]);
    assert_eq!(chromosome.1, rate());
}

#[test]
fn mutate_with_failed_trials_changes_nothing() {
    let mut chromosome = Chromosome(vec![1, 2, 3], rate());
    chromosome.mutate_with(&vec![None, None, None, None, None]);
    assert_eq!(chromosome.0, vec![1, 2, 3]);
    chromosome.mutate_with(&Vec::new());
    assert_eq!(chromosome.0, vec![1, 2, 3]);
}

#[test]
fn mutate_with_may_revisit_a_position() {
    let before = vec![0u8; 10];
    let mut chromosome = Chromosome(before.clone(), rate());
    chromosome.mutate_with(&vec![Some((4, 1)), Some((4, 2)), Some((4, 3)), Some((5, 0))]);
    // Four successful trials, one changed gene.
    assert_eq!(differing(&before, &chromosome.0), 1);
    assert_eq!(chromosome.0[4], 3);
}

#[test]
fn mutate_keeps_length_and_rate() {
    for length in [0usize, 1, 5, 29, 30, 35, 36, 200] {
        let mut chromosome = Chromosome(vec![7; length], certain());
        chromosome.mutate();
        assert_eq!(chromosome.0.len(), length);
        assert_eq!(chromosome.1, certain());
    }
}

#[test]
fn mutate_changes_at_most_the_trial_limit() {
    // A fifth of 200 is 40, so a pass runs 5 to 39 trials.
    for _ in 0..50 {
        let before = vec![0u8; 200];
        let mut chromosome = Chromosome(before.clone(), certain());
        chromosome.mutate();
        assert!(differing(&before, &chromosome.0) <= 39);
    }
}

#[test]
fn mutate_of_a_short_chromosome_runs_five_trials() {
    // Below 30 genes the range of trial counts would be empty; the pass
    // then runs exactly 5 trials.
    for _ in 0..50 {
        let before = vec![0u8; 12];
        let mut chromosome = Chromosome(before.clone(), certain());
        chromosome.mutate();
        assert!(differing(&before, &chromosome.0) <= 5);
    }
}

#[test]
fn mutate_at_a_certain_rate_reaches_many_positions() {
    let mut touched = vec![false; 50];
    for _ in 0..200 {
        let before: Vec<u8> = vec![0; 50];
        let mut chromosome = Chromosome(before, certain());
        chromosome.mutate();
        for (i, &g) in chromosome.0.iter().enumerate() {
            if g != 0 {
                touched[i] = true;
            }
        }
    }
    assert!(touched.iter().filter(|&&t| t).count() > 25);
}

#[test]
fn mutate_at_a_decayed_rate_still_mutates() {
    let mut r = certain();
    for _ in 0..10 {
        r = r.decay();
    }
    let mut changed = false;
    for _ in 0..100 {
        let mut chromosome = Chromosome(vec![0; 100], r);
        chromosome.mutate();
        assert_eq!(chromosome.0.len(), 100);
        changed = changed || chromosome.0.iter().any(|&g| g != 0);
    }
    assert!(changed);
}

#[test]
fn mutate_at_a_low_rate_changes_little() {
    let rare = MutationRate::new(1, 1_000_000).unwrap();
    let mut changes = 0;
    for _ in 0..100 {
        let mut chromosome = Chromosome(vec![0; 100], rare);
        chromosome.mutate();
        changes += chromosome.0.iter().filter(|&&g| g != 0).count();
    }
    assert!(changes < 50);
}

#[test]
fn chromosomes_compare_by_genes_alone() {
    let a = Chromosome(vec![1, 2, 3], rate());
    let b = Chromosome(vec![1, 2, 3], certain());
    let c = Chromosome(vec![1, 2, 4], rate());
    let d = Chromosome(vec![1, 2], rate());
    assert!(a == b);
    assert!(a != c);
    assert!(a != d);
}
