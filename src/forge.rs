use vstd::prelude::*;

verus! {

/// Checks the result of a computing task; every result is accepted for now.
pub fn verify_hpc_result() -> (r: bool)
    ensures
        r,
{
    true
}

} // verus!
