//! The choice of the core that a thread is bound to.

use vstd::prelude::*;

use crate::error::FecError;

verus! {

/// Whether a thread can be bound to a core, given the number of cores that
/// the system reports, if it reports any.
pub open spec fn core_choice(core_id: usize, cores: Option<usize>) -> Result<usize, FecError> {
    match cores {
        None => Err(FecError::InvalidParam("unable to query cores")),
        Some(n) => if core_id >= n {
            Err(FecError::InvalidParam("core_id out of range"))
        } else {
            Ok(core_id)
        },
    }
}

/// The index, among the cores that the system reports, of the one to bind to.
pub fn choose_core(core_id: usize, cores: Option<usize>) -> (r: Result<usize, FecError>)
    ensures
        r == core_choice(core_id, cores),
{
    match cores {
        None => Err(FecError::InvalidParam("unable to query cores")),
        Some(n) => {
            if core_id >= n {
                Err(FecError::InvalidParam("core_id out of range"))
            } else {
                Ok(core_id)
            }
        },
    }
}

/// Binding where the system cannot be asked: always refused.
pub fn pin_to_core(core_id: usize) -> (r: Result<(), FecError>)
    ensures
        r == Err::<(), _>(FecError::InvalidParam("affinity feature not enabled")),
{
    Err(FecError::InvalidParam("affinity feature not enabled"))
}

/// A thread is bound exactly to the core asked for, wherever the system has
/// it, and never beyond the cores that the system reports.
pub proof fn lemma_core_exists(core_id: usize, n: usize)
    ensures
        core_choice(core_id, Some(n)) is Ok <==> core_id < n,
        core_choice(core_id, Some(n)) matches Ok(i) ==> i == core_id && i < n,
        core_choice(core_id, None) is Err,
{
}

} // verus!
