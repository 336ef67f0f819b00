//! The simulator's numeric parameters.
use vstd::prelude::*;

verus! {

/// A numeric parameter that cannot be used.
#[derive(Debug, Clone, Copy, PartialEq, Eq, Structural)]
pub enum ConfigError {
    /// The number of block-offset bits `b` is not positive.
    InvalidB,
    /// The number of set-index bits `s` is not positive.
    InvalidS,
    /// The associativity `E` is not positive.
    InvalidE,
}

/// Checks the parameters `s`, `b` and `e` in the order `b`, `s`, `e`: each
/// must be positive, and the first that is not is reported.
pub fn validate_config(s: i32, b: i32, e: i32) -> (r: Result<(), ConfigError>)
    ensures
        r == (if b < 1 {
            Err(ConfigError::InvalidB)
        } else if s < 1 {
            Err(ConfigError::InvalidS)
        } else if e < 1 {
            Err(ConfigError::InvalidE)
        } else {
            Ok(())
        }),
{
    if b < 1 {
        Err(ConfigError::InvalidB)
    } else if s < 1 {
        Err(ConfigError::InvalidS)
    } else if e < 1 {
        Err(ConfigError::InvalidE)
    } else {
        Ok(())
    }
}

} // verus!
