use vstd::prelude::*;

use crate::pocup::{perform_useful_work, Validator};

verus! {

/// Keeps the validators of a node.
pub struct ChainManager {
    pub validators: Vec<Validator>,
}

impl ChainManager {
    /// A manager with no validators.
    pub fn new() -> (r: Self)
        ensures
            r.validators@.len() == 0,
    {
        ChainManager { validators: Vec::new() }
    }

    /// Appends a validator that has not solved its puzzle yet.
    pub fn add_validator(&mut self, id: String, stake_amount: u64)
        ensures
            final(self).validators@ == old(self).validators@.push(
                Validator { id, stake_amount, puzzle_passed: false },
            ),
    {
        let validator = Validator { id, stake_amount, puzzle_passed: false };
        self.validators.push(validator);
    }

    /// Has every validator run its puzzle. Afterwards none is due a warning.
    pub fn run_pocup_tasks(&mut self)
        ensures
            final(self).validators@.len() == old(self).validators@.len(),
            forall|i: int|
                0 <= i < final(self).validators@.len() ==> {
                    &&& (#[trigger] final(self).validators@[i]).puzzle_passed
                    &&& final(self).validators@[i].id == old(self).validators@[i].id
                    &&& final(self).validators@[i].stake_amount
                        == old(self).validators@[i].stake_amount
                },
    {
        let n = self.validators.len();
        let mut i: usize = 0;
        while i < n
            invariant
                n == self.validators@.len(),
                n == old(self).validators@.len(),
                i <= n,
                forall|j: int|
                    0 <= j < n ==> {
                        &&& (#[trigger] self.validators@[j]).id == old(self).validators@[j].id
                        &&& self.validators@[j].stake_amount == old(
                            self,
                        ).validators@[j].stake_amount
                        &&& (j < i ==> self.validators@[j].puzzle_passed)
                    },
            decreases n - i,
        {
            perform_useful_work(&mut self.validators[i]);
            i = i + 1;
        }
    }
}

} // verus!
