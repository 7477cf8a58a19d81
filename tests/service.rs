use citadel::service::{run, run_step, FatalError, ServiceStep};

#[test]
fn service_stops_on_first_fatal_error() {
    let outcomes = vec![Ok(()), Ok(()), Err(FatalError::Transport), Ok(())];
    assert_eq!(run(&outcomes), (2, Some(FatalError::Transport)));
    assert_eq!(run(&vec![Ok(()), Ok(())]), (2, None));
    assert_eq!(run_step(Err(FatalError::Unmarshall)), ServiceStep::Stop(FatalError::Unmarshall));
    assert_eq!(run_step(Ok(())), ServiceStep::Continue);
}
