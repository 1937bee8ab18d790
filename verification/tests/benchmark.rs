use rs_face::benchmark::{stratified_kfold, Rng};

#[test]
fn stratified_kfold_balanced() {
    let labels = vec![0, 0, 0, 0, 1, 1, 1, 1, 2, 2, 2, 2];
    let folds = stratified_kfold(&labels, 4, 42);
    assert_eq!(folds.len(), 4);
    for f in &folds {
        assert_eq!(f.len(), 3);
    }
}

#[test]
fn rng_shuffle_full_coverage() {
    let mut rng = Rng::new(1);
    let mut v: Vec<usize> = (0..100).collect();
    rng.shuffle(&mut v);
    v.sort();
    assert_eq!(v, (0..100).collect::<Vec<_>>());
}

use rs_face::benchmark::{format_utc, generate_pairs, Algorithm, Mode, Options};

#[test]
fn rng_first_draw_is_one_xorshift_step() {
    let mut rng = Rng::new(1);
    assert_eq!(rng.next_u64(), 1082269761);
}

#[test]
fn rng_zero_seed_is_replaced() {
    let mut a = Rng::new(0);
    let mut b = Rng::new(0x9E3779B97F4A7C15);
    assert_eq!(a.next_u64(), b.next_u64());
}

#[test]
fn rng_gen_range_stays_below_bound() {
    let mut rng = Rng::new(7);
    for n in 1..50usize {
        assert!(rng.gen_range(n) < n);
    }
    assert_eq!(rng.gen_range(0), 0);
}

#[test]
fn kfold_partitions_all_indices() {
    let labels = vec![3, 1, 1, 2, 3, 3, 1, 2, 2, 2, 5];
    let folds = stratified_kfold(&labels, 3, 9);
    let mut all: Vec<usize> = folds.iter().flatten().copied().collect();
    all.sort();
    assert_eq!(all, (0..labels.len()).collect::<Vec<_>>());
}

#[test]
fn kfold_balances_each_class() {
    let labels = vec![0, 0, 0, 0, 0, 1, 1, 2];
    let folds = stratified_kfold(&labels, 2, 3);
    for (j, f) in folds.iter().enumerate() {
        let c0 = f.iter().filter(|&&i| labels[i] == 0).count();
        let c1 = f.iter().filter(|&&i| labels[i] == 1).count();
        let c2 = f.iter().filter(|&&i| labels[i] == 2).count();
        assert_eq!(c0, (5 + 2 - 1 - j) / 2);
        assert_eq!(c1, 1);
        assert_eq!(c2, if j == 0 { 1 } else { 0 });
    }
}

#[test]
fn kfold_with_more_folds_than_samples() {
    let folds = stratified_kfold(&[4, 4], 5, 1);
    assert_eq!(folds.len(), 5);
    assert_eq!(folds[2].len() + folds[3].len() + folds[4].len(), 0);
}

#[test]
fn pairs_are_labelled_by_identity() {
    let labels = vec![0, 0, 0, 1, 1, 1, 2, 2, 2, 3];
    let pairs = generate_pairs(&labels, 100, 42);
    let pos = pairs.iter().filter(|p| p.same).count();
    let neg = pairs.len() - pos;
    assert_eq!(pos, 6);
    assert!(neg <= pos);
    for p in &pairs {
        assert!(p.i < labels.len() && p.j < labels.len());
        assert_ne!(p.i, p.j);
        assert_eq!(p.same, labels[p.i] == labels[p.j]);
    }
}

#[test]
fn pairs_are_down_sampled() {
    let labels: Vec<usize> = (0..40).map(|i| i / 10).collect();
    let pairs = generate_pairs(&labels, 10, 5);
    let pos = pairs.iter().filter(|p| p.same).count();
    assert!(pos <= 5);
}

#[test]
fn pairs_of_single_class_have_no_negatives() {
    let pairs = generate_pairs(&[7, 7, 7], 10, 1);
    assert_eq!(pairs.len(), 2);
    assert!(pairs.iter().all(|p| p.same));
}

#[test]
fn utc_epoch_and_leap_day() {
    assert_eq!(format_utc(0), "1970-01-01 00:00:00 UTC");
    assert_eq!(format_utc(86399), "1970-01-01 23:59:59 UTC");
    assert_eq!(format_utc(951782400), "2000-02-29 00:00:00 UTC");
    assert_eq!(format_utc(1700000000), "2023-11-14 22:13:20 UTC");
}

#[test]
fn mode_and_algorithm_names() {
    assert_eq!(Mode::from_str("Identification"), Ok(Mode::Identification));
    assert_eq!(Mode::from_str("both"), Ok(Mode::Both));
    assert!(Mode::from_str("nope").is_err());
    assert_eq!(Algorithm::from_str("LBPH"), Ok(Algorithm::LBPH));
}

#[test]
fn options_defaults() {
    let o = Options::default();
    assert_eq!(o.folds, 5);
    assert_eq!(o.max_pairs, 2000);
    assert_eq!(o.seed, 42);
    assert_eq!(o.size, (92, 112));
}
