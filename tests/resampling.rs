use robot_localization::resampling::{
    bucket_of, check_input, gather, resample, resample_indices, resample_with_scheme, resampling,
    resampling_sort, resampling_stratified, resampling_systematic, stratified_draws,
    systematic_draws, total_weight, ResampleError, ResamplingScheme,
};

type Scheme = fn(&Vec<char>, &Vec<u64>) -> Result<Vec<char>, ResampleError>;

fn all_schemes() -> Vec<Scheme> {
    vec![
        resampling::<char>,
        resampling_sort::<char>,
        resampling_stratified::<char>,
        resampling_systematic::<char>,
    ]
}

#[test]
fn total_weight_sums_weights() {
    assert_eq!(total_weight(&vec![1, 2, 3]), Ok(6));
    assert_eq!(total_weight(&vec![0, 0, 5]), Ok(5));
}

#[test]
fn total_weight_errors() {
    assert_eq!(total_weight(&vec![]), Err(ResampleError::Empty));
    assert_eq!(total_weight(&vec![0, 0]), Err(ResampleError::ZeroTotalWeight));
    assert_eq!(total_weight(&vec![u64::MAX, 1]), Err(ResampleError::WeightOverflow));
    assert_eq!(total_weight(&vec![u64::MAX]), Ok(u64::MAX));
}

#[test]
fn check_input_length_mismatch() {
    assert_eq!(check_input(&vec!['a', 'b'], &vec![1]), Err(ResampleError::LengthMismatch));
    assert_eq!(check_input(&vec!['a', 'b'], &vec![1, 4]), Ok(5));
}

#[test]
fn bucket_of_locates_cumulative_bucket() {
    let w = vec![1, 0, 2, 1];
    assert_eq!(bucket_of(&w, 0), 0);
    assert_eq!(bucket_of(&w, 1), 2);
    assert_eq!(bucket_of(&w, 2), 2);
    assert_eq!(bucket_of(&w, 3), 3);
}

#[test]
fn sweep_selects_buckets() {
    let w = vec![1, 0, 2, 1];
    assert_eq!(resample_indices(&vec![0, 1, 2, 3], &w), vec![0, 2, 2, 3]);
    assert_eq!(resample_indices(&vec![2, 2, 3, 3], &w), vec![2, 2, 3, 3]);
    assert_eq!(resample_indices(&vec![], &w), Vec::<usize>::new());
}

#[test]
fn stratified_draws_one_per_stratum() {
    assert_eq!(stratified_draws(10, &vec![0, 9, 5, 3]), vec![0, 4, 6, 8]);
    assert_eq!(stratified_draws(10, &vec![]), Vec::<u64>::new());
}

#[test]
fn systematic_draws_equally_spaced() {
    assert_eq!(systematic_draws(10, 4, 3), vec![0, 3, 5, 8]);
    assert_eq!(systematic_draws(8, 4, 0), vec![0, 2, 4, 6]);
}

#[test]
fn resample_sorts_draws_and_selects() {
    let particles = vec!['a', 'b', 'c', 'd'];
    let w = vec![1, 0, 2, 1];
    let mut draws = vec![3, 0, 2, 1];
    assert_eq!(resample(&mut draws, &particles, &w), Ok(vec!['a', 'c', 'c', 'd']));
    assert_eq!(draws, vec![0, 1, 2, 3]);
}

#[test]
fn resample_rejects_bad_input() {
    let particles = vec!['a', 'b'];
    let mut draws = vec![0, 4];
    assert_eq!(resample(&mut draws, &particles, &vec![1, 3]), Err(ResampleError::DrawOutOfRange));
    let mut draws = vec![0, 1];
    assert_eq!(resample(&mut draws, &particles, &vec![1]), Err(ResampleError::LengthMismatch));
    let mut draws = vec![0, 1];
    assert_eq!(resample(&mut draws, &particles, &vec![0, 0]), Err(ResampleError::ZeroTotalWeight));
    let mut draws: Vec<u64> = vec![];
    assert_eq!(resample(&mut draws, &Vec::<char>::new(), &vec![]), Err(ResampleError::Empty));
}

#[test]
fn every_scheme_keeps_length() {
    let weight_sets: Vec<Vec<u64>> = vec![
        vec![1],
        vec![5, 1],
        vec![1, 1, 1, 1, 1, 1, 1],
        vec![0, 3, 0, 9, 1],
        vec![1_000_000, 1, 2, 3, 4, 5, 6, 7],
    ];
    for w in weight_sets {
        let particles: Vec<char> = (0..w.len()).map(|i| (b'a' + i as u8) as char).collect();
        for scheme in all_schemes() {
            assert_eq!(scheme(&particles, &w).unwrap().len(), particles.len());
        }
    }
}

#[test]
fn concentrated_weight_gives_identical_copies() {
    let particles = vec!['a', 'b', 'c', 'd'];
    let w = vec![0, 0, 1, 0];
    for scheme in all_schemes() {
        assert_eq!(scheme(&particles, &w), Ok(vec!['c', 'c', 'c', 'c']));
    }
    for s in [ResamplingScheme::IID, ResamplingScheme::Stratified, ResamplingScheme::Systematic] {
        assert_eq!(resample_with_scheme(s, &particles, &w), Ok(vec!['c', 'c', 'c', 'c']));
    }
}

#[test]
fn zero_weight_particles_never_drawn() {
    let particles = vec!['a', 'b', 'c', 'd', 'e'];
    let w = vec![3, 0, 1, 0, 2];
    for _ in 0..50 {
        for scheme in all_schemes() {
            let out = scheme(&particles, &w).unwrap();
            assert!(out.iter().all(|p| *p == 'a' || *p == 'c' || *p == 'e'));
        }
    }
}

#[test]
fn schemes_report_errors() {
    for scheme in all_schemes() {
        assert_eq!(scheme(&vec![], &vec![]), Err(ResampleError::Empty));
        assert_eq!(scheme(&vec!['a'], &vec![0]), Err(ResampleError::ZeroTotalWeight));
        assert_eq!(scheme(&vec!['a'], &vec![1, 2]), Err(ResampleError::LengthMismatch));
        assert_eq!(scheme(&vec!['a', 'b'], &vec![u64::MAX, 2]), Err(ResampleError::WeightOverflow));
    }
}

fn copy_count_variance(scheme: Scheme, trials: usize) -> f64 {
    let particles = vec!['a', 'b', 'c', 'd', 'e'];
    let w = vec![1, 2, 3, 4, 5];
    let mut counts: Vec<f64> = Vec::new();
    for _ in 0..trials {
        let out = scheme(&particles, &w).unwrap();
        counts.push(out.iter().filter(|p| **p == 'c').count() as f64);
    }
    let mean = counts.iter().sum::<f64>() / trials as f64;
    counts.iter().map(|c| (c - mean) * (c - mean)).sum::<f64>() / trials as f64
}

#[test]
fn low_variance_schemes_beat_iid() {
    let iid = copy_count_variance(resampling_sort::<char>, 3000);
    let stratified = copy_count_variance(resampling_stratified::<char>, 3000);
    let systematic = copy_count_variance(resampling_systematic::<char>, 3000);
    assert!(stratified < iid, "stratified {} iid {}", stratified, iid);
    assert!(systematic < iid, "systematic {} iid {}", systematic, iid);
}

#[test]
fn equal_weights_keep_the_set() {
    let particles: Vec<f64> = (0..100).map(|i| (i as f64) * 0.5 - 7.0).collect();
    let w = vec![7u64; 100];
    assert_eq!(resampling_stratified(&particles, &w), Ok(particles.clone()));
    assert_eq!(resampling_systematic(&particles, &w), Ok(particles.clone()));
}

#[test]
fn equal_weights_iid_keeps_mean_in_distribution() {
    let n = 4000;
    let particles: Vec<f64> = (0..n).map(|i| (i % 10) as f64).collect();
    let mean = particles.iter().sum::<f64>() / n as f64;
    let var = particles.iter().map(|p| (p - mean) * (p - mean)).sum::<f64>() / n as f64;
    let w = vec![1u64; n];
    let out = resampling_sort(&particles, &w).unwrap();
    let out_mean = out.iter().sum::<f64>() / n as f64;
    let out_var = out.iter().map(|p| (p - out_mean) * (p - out_mean)).sum::<f64>() / n as f64;
    assert!((out_mean - mean).abs() < 0.3, "mean {} vs {}", out_mean, mean);
    assert!((out_var - var).abs() < 1.0, "variance {} vs {}", out_var, var);
}

#[test]
fn systematic_copies_stay_near_expectation() {
    let w = vec![1, 2, 3, 4];
    let draws = systematic_draws(10, 4, 3);
    let sel = resample_indices(&draws, &w);
    assert_eq!(sel, vec![0, 2, 2, 3]);
    for offset in 0..10 {
        let sel = resample_indices(&systematic_draws(10, 4, offset), &w);
        for (i, wi) in w.iter().enumerate() {
            let copies = sel.iter().filter(|s| **s == i).count() as i64;
            assert!((copies * 10 - 4 * (*wi as i64)).abs() < 10);
        }
    }
}

#[test]
fn stratified_copies_stay_near_expectation() {
    let w = vec![5, 0, 1, 4];
    let offsets_list = vec![vec![0, 0, 0, 0], vec![9, 9, 9, 9], vec![0, 9, 3, 7], vec![9, 0, 9, 0]];
    for offsets in offsets_list {
        let sel = resample_indices(&stratified_draws(10, &offsets), &w);
        for (i, wi) in w.iter().enumerate() {
            let copies = sel.iter().filter(|s| **s == i).count() as i64;
            assert!((copies * 10 - 4 * (*wi as i64)).abs() < 20);
        }
    }
}

#[test]
fn gather_copies_by_index() {
    assert_eq!(gather(&vec!['x', 'y', 'z'], &vec![2, 0, 2, 1]), vec!['z', 'x', 'z', 'y']);
    assert_eq!(gather(&vec!['x'], &vec![]), Vec::<char>::new());
}
