//! The particle collection that a particle filter owns, and the two phases
//! of its update. The numeric work (moving a particle, scoring it against a
//! measurement) is the caller's; this type decides what changes and when.
use vstd::prelude::*;
use crate::resampling::{
    drawn_from_support, input_error, resample_with_scheme, scheme_outcome, ResampleError,
    ResamplingScheme,
};

verus! {

/// Pose hypotheses and the scheme that resamples them.
pub struct ParticleSet<P> {
    pub particles: Vec<P>,
    pub scheme: ResamplingScheme,
}

impl<P: Copy> ParticleSet<P> {
    pub fn new(particles: Vec<P>, scheme: ResamplingScheme) -> (s: ParticleSet<P>)
        ensures
            s.particles@ == particles@,
            s.scheme == scheme,
    {
        ParticleSet { particles, scheme }
    }

    pub fn len(&self) -> (n: usize)
        ensures
            n == self.particles.len(),
    {
        self.particles.len()
    }

    /// Prediction phase. Without a control (`None`) nothing moves; otherwise
    /// the moved particles, one per particle, replace the old ones.
    pub fn predict(&mut self, moved: Option<Vec<P>>) -> (r: Result<(), ResampleError>)
        ensures
            final(self).scheme == old(self).scheme,
            match moved {
                None => r is Ok && final(self).particles@ == old(self).particles@,
                Some(m) => if m.len() == old(self).particles.len() {
                    r is Ok && final(self).particles@ == m@
                } else {
                    r == Err::<(), ResampleError>(ResampleError::LengthMismatch)
                        && final(self).particles@ == old(self).particles@
                },
            },
    {
        match moved {
            None => Ok(()),
            Some(m) => {
                if m.len() != self.particles.len() {
                    return Err(ResampleError::LengthMismatch);
                }
                self.particles = m;
                Ok(())
            },
        }
    }

    /// Correction phase. Without measurements (`None`) no weight is looked at
    /// and nothing is resampled. Otherwise the whole collection is replaced at
    /// once by a resampled one; on an error it is left as it was.
    pub fn correct(&mut self, weights: Option<Vec<u64>>) -> (r: Result<(), ResampleError>)
        ensures
            final(self).scheme == old(self).scheme,
            match weights {
                None => r is Ok && final(self).particles@ == old(self).particles@,
                Some(w) => match input_error(old(self).particles@, w@) {
                    Some(e) => r == Err::<(), ResampleError>(e)
                        && final(self).particles@ == old(self).particles@,
                    None => r is Ok && final(self).particles.len() == old(self).particles.len()
                        && scheme_outcome(old(self).scheme, old(self).particles@, w@, final(self).particles@)
                        && drawn_from_support(old(self).particles@, w@, final(self).particles@),
                },
            },
    {
        match weights {
            None => Ok(()),
            Some(w) => {
                match resample_with_scheme(self.scheme, &self.particles, &w) {
                    Ok(out) => {
                        self.particles = out;
                        Ok(())
                    },
                    Err(e) => Err(e),
                }
            },
        }
    }
}

} // verus!
