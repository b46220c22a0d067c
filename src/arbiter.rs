use vstd::prelude::*;

verus! {

/// Judges a governance proposal; every proposal is acceptable for now.
pub fn assess_governance_proposal() -> (r: bool)
    ensures
        r,
{
    true
}

} // verus!
