//! The power repository of platforms without battery support.
use crate::domain::power::{PowerError, PowerRepository, PowerSnapshot};
use vstd::prelude::*;

verus! {

/// Reports that battery monitoring is unsupported.
pub struct PlatformPowerRepository;

impl PowerRepository for PlatformPowerRepository {
    fn power(&mut self) -> (r: Result<PowerSnapshot, PowerError>)
        ensures
            r matches Err(PowerError::Unsupported),
    {
        Err(PowerError::Unsupported)
    }
}

} // verus!
