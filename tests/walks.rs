use rand::rngs::SmallRng;
use rand::SeedableRng;
use rand_walks::coin::Coin;
use rand_walks::error::WalkError;
use rand_walks::histogram::{bin_endpoints, distribution, endpoint_range};
use rand_walks::walk::{
    bernoulli_experiment, count_successes, fold_chunks, random_walk, random_walk_end,
    running_sums, sample_count,
};

fn fair() -> Coin {
    Coin::new(1, 2).unwrap()
}

#[test]
fn coin_rejects_ratio_above_one() {
    assert_eq!(Coin::new(3, 2).err(), Some(WalkError::InvalidProbability));
}

#[test]
fn coin_rejects_zero_denominator() {
    assert_eq!(Coin::new(0, 0).err(), Some(WalkError::InvalidProbability));
}

#[test]
fn coin_keeps_its_ratio() {
    let c = Coin::new(3, 10).unwrap();
    assert_eq!(c.numerator_of(), 3);
    assert_eq!(c.denominator_of(), 10);
}

#[test]
fn running_sums_of_known_flips() {
    assert_eq!(running_sums(&vec![true, false, false, true]), vec![1, 0, -1, 0]);
    assert_eq!(running_sums(&vec![]), Vec::<i64>::new());
}

#[test]
fn fold_chunks_keeps_walkers_apart() {
    let s = vec![true, true, false, false, false, true];
    assert_eq!(fold_chunks(&s, 3, 2), vec![1, -1]);
    assert_eq!(fold_chunks(&s, 2, 3), vec![2, -2, 0]);
}

#[test]
fn fold_chunks_with_no_steps_gives_zeros() {
    assert_eq!(fold_chunks(&vec![], 0, 4), vec![0, 0, 0, 0]);
}

#[test]
fn count_successes_of_known_flips() {
    assert_eq!(count_successes(&vec![true, false, true, true]), 3);
}

#[test]
fn bernoulli_experiment_extremes() {
    let mut rng = SmallRng::seed_from_u64(7);
    assert_eq!(bernoulli_experiment(&mut rng, &Coin::new(0, 5).unwrap(), 20), 0);
    assert_eq!(bernoulli_experiment(&mut rng, &Coin::new(5, 5).unwrap(), 20), 20);
    let k = bernoulli_experiment(&mut rng, &fair(), 20);
    assert!(k <= 20);
}

#[test]
fn walk_steps_are_unit() {
    let mut rng = SmallRng::seed_from_u64(1);
    let w = random_walk(&mut rng, &fair(), 200);
    assert_eq!(w.len(), 200);
    assert!(w[0] == 1 || w[0] == -1);
    for i in 1..w.len() {
        assert_eq!((w[i] - w[i - 1]).abs(), 1);
    }
}

#[test]
fn walk_with_certain_outcomes_is_straight() {
    let mut rng = SmallRng::seed_from_u64(2);
    assert_eq!(random_walk(&mut rng, &Coin::new(0, 1).unwrap(), 4), vec![-1, -2, -3, -4]);
    assert_eq!(random_walk(&mut rng, &Coin::new(1, 1).unwrap(), 4), vec![1, 2, 3, 4]);
}

#[test]
fn endpoints_share_parity_and_bound() {
    let mut rng = SmallRng::seed_from_u64(3);
    for n in [1usize, 2, 7, 50] {
        let e = random_walk_end(&mut rng, &fair(), n, 300).unwrap();
        assert_eq!(e.len(), 300);
        let n = n as i64;
        for x in e {
            assert!(-n <= x && x <= n);
            assert_eq!((x + n) % 2, 0);
        }
    }
}

#[test]
fn endpoints_with_no_steps_are_zero() {
    let mut rng = SmallRng::seed_from_u64(4);
    assert_eq!(random_walk_end(&mut rng, &fair(), 0, 3).unwrap(), vec![0, 0, 0]);
}

#[test]
fn no_walkers_cannot_be_binned() {
    let mut rng = SmallRng::seed_from_u64(5);
    let e = random_walk_end(&mut rng, &fair(), 10, 0).unwrap();
    assert!(e.is_empty());
    assert_eq!(distribution(&e).err(), Some(WalkError::EmptyInput));
    assert_eq!(endpoint_range(&e).err(), Some(WalkError::EmptyInput));
}

#[test]
fn oversized_batch_is_refused() {
    let mut rng = SmallRng::seed_from_u64(6);
    assert_eq!(random_walk_end(&mut rng, &fair(), usize::MAX, 2).err(), Some(WalkError::OverflowRisk));
    assert_eq!(sample_count(usize::MAX / 2 + 1, 1).err(), Some(WalkError::OverflowRisk));
    assert_eq!(sample_count(1000, 100_000).ok(), Some(100_000_000));
}

#[test]
fn distribution_counts_sum_to_walkers() {
    let mut rng = SmallRng::seed_from_u64(8);
    let e = random_walk_end(&mut rng, &fair(), 100, 1000).unwrap();
    let d = distribution(&e).unwrap();
    assert_eq!(d.counts().iter().sum::<usize>(), 1000);
    assert_eq!(d.counts().len() as i64, d.max() - d.min() + 1);
}

#[test]
fn distribution_matches_recount() {
    let e = vec![1, 3, 1, -1];
    let d = distribution(&e).unwrap();
    assert_eq!(d.min(), -1);
    assert_eq!(d.max(), 3);
    assert_eq!(d.counts(), &vec![1, 0, 2, 0, 1]);
    let mut rng = SmallRng::seed_from_u64(9);
    let e = random_walk_end(&mut rng, &fair(), 30, 500).unwrap();
    let d = distribution(&e).unwrap();
    for (k, c) in d.counts().iter().enumerate() {
        let v = d.min() + k as i64;
        assert_eq!(*c, e.iter().filter(|&&x| x == v).count());
    }
}

#[test]
fn endpoint_range_finds_extremes() {
    assert_eq!(endpoint_range(&vec![4, -2, 9, 0]).ok(), Some((-2, 9)));
    assert_eq!(bin_endpoints(&vec![4, -2, 4], -2, 4), vec![1, 0, 0, 0, 0, 0, 2]);
}

#[test]
fn distribution_too_wide_is_refused() {
    assert_eq!(distribution(&vec![i64::MIN, i64::MAX]).err(), Some(WalkError::OverflowRisk));
}

#[test]
fn certain_coins_give_single_spikes() {
    let mut rng = SmallRng::seed_from_u64(10);
    let e = random_walk_end(&mut rng, &Coin::new(0, 3).unwrap(), 25, 40).unwrap();
    let d = distribution(&e).unwrap();
    assert_eq!((d.min(), d.max()), (-25, -25));
    assert_eq!(d.counts(), &vec![40]);
    let e = random_walk_end(&mut rng, &Coin::new(3, 3).unwrap(), 25, 40).unwrap();
    let d = distribution(&e).unwrap();
    assert_eq!((d.min(), d.max()), (25, 25));
    assert_eq!(d.counts(), &vec![40]);
}

#[test]
fn seeded_runs_are_identical() {
    let mut a = SmallRng::seed_from_u64(42);
    let mut b = SmallRng::seed_from_u64(42);
    let ea = random_walk_end(&mut a, &fair(), 64, 200).unwrap();
    let eb = random_walk_end(&mut b, &fair(), 64, 200).unwrap();
    assert_eq!(ea, eb);
}
