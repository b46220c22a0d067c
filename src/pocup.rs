use vstd::prelude::*;

verus! {

/// A validator stakes tokens and must solve a work puzzle.
#[derive(Debug)]
pub struct Validator {
    /// Name of the validator.
    pub id: String,
    /// Tokens staked.
    pub stake_amount: u64,
    /// Whether the validator solved its puzzle.
    pub puzzle_passed: bool,
}

/// The work puzzle; this one is always solved.
pub fn trivial_puzzle() -> (r: bool)
    ensures
        r,
{
    true
}

/// Runs the puzzle and records its outcome.
pub fn perform_useful_work(validator: &mut Validator)
    ensures
        final(validator).puzzle_passed,
        final(validator).id == old(validator).id,
        final(validator).stake_amount == old(validator).stake_amount,
{
    validator.puzzle_passed = trivial_puzzle();
}

/// Adds `amount` to the validator's stake.
pub fn stake(validator: &mut Validator, amount: u64)
    requires
        old(validator).stake_amount + amount <= u64::MAX,
    ensures
        final(validator).stake_amount == old(validator).stake_amount + amount,
        final(validator).id == old(validator).id,
        final(validator).puzzle_passed == old(validator).puzzle_passed,
{
    validator.stake_amount = validator.stake_amount + amount;
}

/// Whether the validator failed its puzzle and is due a warning; no penalty
/// is applied.
pub fn needs_slashing(validator: &Validator) -> (r: bool)
    ensures
        r == !validator.puzzle_passed,
{
    !validator.puzzle_passed
}

} // verus!
