//! The RANSAC loop: repeatedly estimate a model from a random sample, keep
//! the estimate with the most inliers, and refit on its inliers.
use vstd::prelude::*;

verus! {

/// Number of random samples to try, and the inlier count above which the
/// search stops early.
pub struct RANSACConfig {
    max_iter: u32,
    threshold: usize,
}

impl RANSACConfig {
    pub fn new(max_iter: u32, threshold: usize) -> (r: Self)
        ensures
            r.spec_max_iter() == max_iter,
            r.spec_threshold() == threshold,
    {
        RANSACConfig { max_iter, threshold }
    }

    pub closed spec fn spec_max_iter(&self) -> u32 {
        self.max_iter
    }

    pub closed spec fn spec_threshold(&self) -> usize {
        self.threshold
    }
}

/// A model-fitting problem solved by RANSAC; `T` is the model and `S` an
/// observation. Implementors say what their sampling, their inlier
/// selection and their fitting compute by overriding `spec_sampled`,
/// `spec_inliers` and `spec_estimate`; the default bodies (any model, no
/// inliers, an unspecified model) only serve
/// implementors that carry no specification, and `run` is verified without
/// relying on them.
pub trait RANSAC<T, S> {
    /// Observations that fit the model `estimated`.
    open spec fn spec_inliers(&self, estimated: T) -> Seq<S> {
        Seq::empty()
    }

    /// The model fitted to `inputs`.
    open spec fn spec_estimate(&self, inputs: Seq<S>) -> T {
        arbitrary()
    }

    /// The models that `estimate_from_random_sample` can return: those
    /// fitted to some minimal sample of the observations.
    open spec fn spec_sampled(&self, model: T) -> bool {
        true
    }

    /// A model fitted to a random minimal sample of the observations.
    fn estimate_from_random_sample(&self) -> (r: T)
        ensures
            self.spec_sampled(r),
    ;

    fn get_inliers(&self, estimated: &T) -> (r: Vec<S>)
        ensures
            r@ == self.spec_inliers(*estimated),
    ;

    fn estimate(&self, inputs: &Vec<S>) -> (r: T)
        ensures
            r == self.spec_estimate(inputs@),
    ;

    /// Draws up to `max_iter` random estimates, stopping after the first
    /// one with more than `threshold` inliers; keeps the first estimate
    /// with the largest positive number of inliers and refits on its
    /// inliers. `None` when no estimate had an inlier.
    fn run(&self, config: &RANSACConfig) -> (r: Option<T>)
        ensures
            exists|samples: Seq<T>|
                #![trigger samples.len()]
                {
                    &&& samples.len() <= config.spec_max_iter()
                    &&& forall|j: int| 0 <= j < samples.len() ==> self.spec_sampled(#[trigger] samples[j])
                    &&& forall|j: int|
                        0 <= j < samples.len() - 1 ==> #[trigger] self.spec_inliers(
                            samples[j],
                        ).len() <= config.spec_threshold()
                    &&& samples.len() < config.spec_max_iter() ==> samples.len() > 0
                        && self.spec_inliers(samples[samples.len() - 1]).len()
                        > config.spec_threshold()
                    &&& match r {
                        None => forall|j: int|
                            0 <= j < samples.len() ==> #[trigger] self.spec_inliers(
                                samples[j],
                            ).len() == 0,
                        Some(model) => exists|b: int|
                            {
                                &&& 0 <= b < samples.len()
                                &&& self.spec_inliers(samples[b]).len() > 0
                                &&& forall|j: int|
                                    0 <= j < samples.len() ==> #[trigger] self.spec_inliers(
                                        samples[j],
                                    ).len() <= self.spec_inliers(samples[b]).len()
                                &&& forall|j: int|
                                    0 <= j < b ==> #[trigger] self.spec_inliers(samples[j]).len()
                                        < self.spec_inliers(samples[b]).len()
                                &&& model == self.spec_estimate(
                                    self.spec_inliers(#[trigger] samples[b]),
                                )
                            },
                    }
                },
    {
        let mut best_estimated: Option<T> = None;
        let mut best_num_inliers: usize = 0;
        let ghost mut samples: Seq<T> = Seq::empty();
        let ghost mut best_idx: int = -1;
        let max_iter = config.max_iter;
        let threshold = config.threshold;
        let mut iter: u32 = 0;
        let mut stopped = false;
        while iter < max_iter && !stopped
            invariant
                max_iter == config.spec_max_iter(),
                threshold == config.spec_threshold(),
                iter <= max_iter,
                samples.len() == iter,
                forall|j: int| 0 <= j < samples.len() ==> self.spec_sampled(#[trigger] samples[j]),
                !stopped ==> best_num_inliers <= threshold,
                !stopped ==> forall|j: int|
                    0 <= j < samples.len() ==> #[trigger] self.spec_inliers(samples[j]).len()
                        <= threshold,
                stopped ==> forall|j: int|
                    0 <= j < samples.len() - 1 ==> #[trigger] self.spec_inliers(samples[j]).len()
                        <= threshold,
                stopped ==> samples.len() > 0 && self.spec_inliers(samples[samples.len() - 1]).len()
                    > threshold,
                forall|j: int|
                    0 <= j < samples.len() ==> #[trigger] self.spec_inliers(samples[j]).len()
                        <= best_num_inliers,
                best_estimated is None <==> best_num_inliers == 0,
                best_estimated is None ==> best_idx == -1,
                best_estimated matches Some(e) ==> {
                    &&& 0 <= best_idx < samples.len()
                    &&& e == samples[best_idx]
                    &&& self.spec_inliers(samples[best_idx]).len() == best_num_inliers
                    &&& forall|j: int|
                        0 <= j < best_idx ==> #[trigger] self.spec_inliers(samples[j]).len()
                            < best_num_inliers
                },
            decreases max_iter - iter,
        {
            let estimated = self.estimate_from_random_sample();
            let ghost sample = estimated;
            let num_inliers = self.get_inliers(&estimated).len();
            proof {
                samples = samples.push(sample);
            }
            if num_inliers > best_num_inliers {
                best_estimated = Some(estimated);
                best_num_inliers = num_inliers;
                proof {
                    best_idx = samples.len() - 1;
                }
                if best_num_inliers > threshold {
                    stopped = true;
                }
            }
            iter = iter + 1;
        }
        let r = match best_estimated {
            Some(estimated) => {
                let inliers = self.get_inliers(&estimated);
                Some(self.estimate(&inliers))
            },
            None => None,
        };
        proof {
            if !stopped {
                assert(samples.len() == max_iter);
            }
            if r is Some {
                let b = best_idx;
                assert(r->0 == self.spec_estimate(self.spec_inliers(samples[b])));
            }
        }
        r
    }
}

} // verus!
