use vstd::prelude::*;

use crate::game::ConnectFourGame;
use crate::score::PRIOR_SCALE;

verus! {

/// The learned evaluator, reduced to the interface the search consumes: a
/// policy preference over all 7 columns for the current position of `game`.
/// Entries are fixed-point probabilities in 0 ..= PRIOR_SCALE; the search
/// reads the entries of legal columns only and does not renormalize what it
/// keeps. The value head of a learned model plays no part in the search
/// itself (simulations run to a terminal board), so it is not part of this
/// interface; a learned impl lives outside the library and is consulted
/// through this boundary.
pub trait Evaluator {
    fn evaluate(&mut self, game: &ConnectFourGame) -> (policy: Vec<u64>)
        ensures
            policy@.len() == 7,
            forall|i: int| 0 <= i < 7 ==> #[trigger] policy@[i] <= PRIOR_SCALE,
    ;
}

/// An evaluator with no preference: every column gets the same prior.
pub struct UniformEvaluator {
}

impl Evaluator for UniformEvaluator {
    fn evaluate(&mut self, _game: &ConnectFourGame) -> (policy: Vec<u64>)
        ensures
            forall|i: int| 0 <= i < 7 ==> #[trigger] policy@[i] == PRIOR_SCALE / 7,
    {
        let mut policy: Vec<u64> = Vec::new();
        for i in 0..7usize
            invariant
                policy@.len() == i,
                forall|j: int| 0 <= j < i ==> #[trigger] policy@[j] == PRIOR_SCALE / 7,
        {
            policy.push(PRIOR_SCALE / 7);
        }
        policy
    }
}

/// An evaluator that answers every position with the same stored priors,
/// clamped into range; it stands in for a learned model where none is wanted.
pub struct FixedEvaluator {
    pub priors: Vec<u64>,
}

impl Evaluator for FixedEvaluator {
    fn evaluate(&mut self, _game: &ConnectFourGame) -> (policy: Vec<u64>)
        ensures
            final(self).priors@ == old(self).priors@,
            forall|i: int|
                0 <= i < 7 && i < old(self).priors@.len() && old(self).priors@[i] <= PRIOR_SCALE
                    ==> #[trigger] policy@[i] == old(self).priors@[i],
    {
        let mut policy: Vec<u64> = Vec::new();
        for i in 0..7usize
            invariant
                policy@.len() == i,
                forall|j: int| 0 <= j < i ==> #[trigger] policy@[j] <= PRIOR_SCALE,
                forall|j: int|
                    0 <= j < i && j < self.priors@.len() && self.priors@[j] <= PRIOR_SCALE
                        ==> #[trigger] policy@[j] == self.priors@[j],
        {
            let p = if i < self.priors.len() {
                let q = self.priors[i];
                if q <= PRIOR_SCALE {
                    q
                } else {
                    PRIOR_SCALE
                }
            } else {
                0
            };
            policy.push(p);
        }
        policy
    }
}

} // verus!
