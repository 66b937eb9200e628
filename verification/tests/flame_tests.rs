use fractatoe::flame::FlameConfigError;
use fractatoe::flame::FlameDistribution;
use fractatoe::flame::VariationFunction;
use rand::rngs::StdRng;
use rand_seeder::Seeder;

fn rng_from(seed: &str) -> StdRng {
    Seeder::from(seed).make_rng()
}

#[test]
fn test_distribution_rejects_empty_table() {
    let r = FlameDistribution::new(vec![]);
    assert_eq!(r.err(), Some(FlameConfigError::NoTransformWeights));
}

#[test]
fn test_distribution_rejects_all_zero_weights() {
    let r = FlameDistribution::new(vec![0, 0, 0]);
    assert_eq!(r.err(), Some(FlameConfigError::AllWeightsZero));
}

#[test]
fn test_distribution_rejects_oversized_total() {
    let r = FlameDistribution::new(vec![200, 56]);
    assert_eq!(r.err(), Some(FlameConfigError::WeightTotalTooLarge));
}

#[test]
fn test_distribution_accepts_valid_table() {
    let d = FlameDistribution::new(vec![1, 3]).unwrap();
    assert_eq!(d.len(), 2);
    let boundary = FlameDistribution::new(vec![200, 55]).unwrap();
    assert_eq!(boundary.len(), 2);
}

#[test]
fn test_sample_skips_zero_weights() {
    let d = FlameDistribution::new(vec![0, 5, 0]).unwrap();
    let mut rng = rng_from("zero weight seed");
    for _ in 0..200 {
        assert_eq!(d.sample(&mut rng), 1);
    }
}

#[test]
fn test_single_transform_always_fires() {
    let d = FlameDistribution::new(vec![5]).unwrap();
    let mut rng = rng_from("single transform seed");
    for _ in 0..50 {
        assert_eq!(d.sample(&mut rng), 0);
    }
}

#[test]
fn test_weighted_selection_converges_to_weight_ratio() {
    let d = FlameDistribution::new(vec![1, 3]).unwrap();
    let mut rng = rng_from("selection ratio seed");
    let rounds = 100_000;
    let mut picked_second: u64 = 0;
    for _ in 0..rounds {
        let i = d.sample(&mut rng);
        assert!(i < 2);
        if i == 1 {
            picked_second += 1;
        }
    }
    let ratio = picked_second as f64 / rounds as f64;
    assert!((ratio - 0.75).abs() < 0.02, "ratio {} strays from 0.75", ratio);
}

#[test]
fn test_same_seed_reproduces_the_draw_sequence() {
    let d = FlameDistribution::new(vec![2, 5, 1]).unwrap();
    let mut first = rng_from("determinism seed");
    let mut second = rng_from("determinism seed");
    for _ in 0..1000 {
        assert_eq!(d.sample(&mut first), d.sample(&mut second));
    }
}

#[test]
fn test_variation_catalogue_is_complete() {
    let catalogue = vec![
        VariationFunction::Bisin,
        VariationFunction::Linear,
        VariationFunction::Spherical,
        VariationFunction::Julia,
        VariationFunction::Swirl,
    ];
    assert_eq!(catalogue.len(), 5);
    assert_ne!(VariationFunction::Linear, VariationFunction::Swirl);
}
