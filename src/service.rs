use vstd::prelude::*;

verus! {

/// An error that ends the service: the request transport failed, or a
/// message could not be read.
#[derive(Clone, Copy, Debug, PartialEq, Eq, Structural)]
pub enum FatalError {
    Transport,
    Unmarshall,
}

/// What the service does after handling one request.
#[derive(Clone, Copy, Debug, PartialEq, Eq, Structural)]
pub enum ServiceStep {
    /// Await the next request.
    Continue,
    /// Stop with the error.
    Stop(FatalError),
}

/// The decision after one request: errors of a request are sent back to
/// its client inside the reply, so only a fatal error stops the service.
pub fn run_step(outcome: Result<(), FatalError>) -> (r: ServiceStep)
    ensures
        outcome is Ok ==> r == ServiceStep::Continue,
        outcome is Err ==> r == ServiceStep::Stop(outcome->Err_0),
{
    match outcome {
        Ok(()) => ServiceStep::Continue,
        Err(e) => ServiceStep::Stop(e),
    }
}

/// Runs the service over the outcomes of its requests, in order: it handles
/// requests until the first fatal error, and returns how many it handled
/// and that error, if one came.
pub fn run(outcomes: &Vec<Result<(), FatalError>>) -> (r: (usize, Option<FatalError>))
    ensures
        r.0 <= outcomes@.len(),
        forall|k: int| 0 <= k < r.0 ==> outcomes@[k] is Ok,
        r.1.is_none() <==> r.0 == outcomes@.len(),
        r.1.is_some() ==> outcomes@[r.0 as int] == Err::<(), FatalError>(r.1.unwrap()),
{
    let mut k: usize = 0;
    while k < outcomes.len()
        invariant
            0 <= k <= outcomes@.len(),
            forall|j: int| 0 <= j < k ==> outcomes@[j] is Ok,
        decreases outcomes@.len() - k,
    {
        match run_step(outcomes[k]) {
            ServiceStep::Continue => {},
            ServiceStep::Stop(e) => {
                return (k, Some(e));
            },
        }
        k = k + 1;
    }
    (k, None)
}

} // verus!
