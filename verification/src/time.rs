use vstd::prelude::*;

verus! {

#[verifier::external_type_specification]
#[verifier::external_body]
pub struct ExSystemTimeError(std::time::SystemTimeError);

/// Relies on std::time::SystemTime::now and duration_since(UNIX_EPOCH):
/// the current wall clock, in whole seconds since the epoch. Nothing can be
/// promised of the value it returns.
#[verifier::external_body]
pub fn get_time_since_epoch() -> Result<u64, std::time::SystemTimeError> {
    match std::time::SystemTime::now().duration_since(std::time::UNIX_EPOCH) {
        Ok(now) => Ok(now.as_secs()),
        Err(error) => Err(error),
    }
}

} // verus!
