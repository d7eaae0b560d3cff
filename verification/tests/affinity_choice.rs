//! Choice of cores.

use syndrome::affinity::{choose_core, pin_to_core};
use syndrome::error::FecError;

#[test]
fn pin_stub_returns_error_when_disabled() {
    assert!(pin_to_core(0).is_err());
}

#[test]
fn pin_to_core_zero_does_not_panic() {
    let _ = pin_to_core(0);
    let _ = choose_core(0, None);
    let _ = choose_core(0, Some(1));
}

#[test]
fn cores_outside_the_list_are_refused() {
    assert_eq!(choose_core(3, Some(4)), Ok(3));
    assert_eq!(choose_core(4, Some(4)), Err(FecError::InvalidParam("core_id out of range")));
    assert_eq!(choose_core(0, None), Err(FecError::InvalidParam("unable to query cores")));
    assert_eq!(
        pin_to_core(1),
        Err(FecError::InvalidParam("affinity feature not enabled"))
    );
}
