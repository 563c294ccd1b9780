use robot_localization::particles::ParticleSet;
use robot_localization::resampling::{ResampleError, ResamplingScheme};

#[test]
fn predict_without_control_leaves_particles() {
    let mut s = ParticleSet::new(vec![1.0, 2.0, 3.0], ResamplingScheme::Systematic);
    assert_eq!(s.predict(None), Ok(()));
    assert_eq!(s.particles, vec![1.0, 2.0, 3.0]);
}

#[test]
fn predict_replaces_with_moved_particles() {
    let mut s = ParticleSet::new(vec![1.0, 2.0, 3.0], ResamplingScheme::IID);
    assert_eq!(s.predict(Some(vec![1.5, 2.5, 3.5])), Ok(()));
    assert_eq!(s.particles, vec![1.5, 2.5, 3.5]);
    assert_eq!(s.predict(Some(vec![0.0])), Err(ResampleError::LengthMismatch));
    assert_eq!(s.particles, vec![1.5, 2.5, 3.5]);
    assert_eq!(s.len(), 3);
}

#[test]
fn correct_without_measurements_leaves_particles() {
    let mut s = ParticleSet::new(vec![4.0, 5.0, 6.0, 7.0], ResamplingScheme::Stratified);
    assert_eq!(s.correct(None), Ok(()));
    assert_eq!(s.particles, vec![4.0, 5.0, 6.0, 7.0]);
}

#[test]
fn correct_resamples_whole_set() {
    for scheme in [ResamplingScheme::IID, ResamplingScheme::Stratified, ResamplingScheme::Systematic] {
        let mut s = ParticleSet::new(vec![4.0, 5.0, 6.0, 7.0], scheme);
        assert_eq!(s.correct(Some(vec![0, 0, 1, 0])), Ok(()));
        assert_eq!(s.particles, vec![6.0, 6.0, 6.0, 6.0]);
        assert_eq!(s.scheme, scheme);
    }
}

#[test]
fn failed_correction_keeps_particles() {
    let mut s = ParticleSet::new(vec![4.0, 5.0], ResamplingScheme::Systematic);
    assert_eq!(s.correct(Some(vec![0, 0])), Err(ResampleError::ZeroTotalWeight));
    assert_eq!(s.particles, vec![4.0, 5.0]);
    assert_eq!(s.correct(Some(vec![1])), Err(ResampleError::LengthMismatch));
    assert_eq!(s.particles, vec![4.0, 5.0]);
}
