//! What extensions share.

use vstd::prelude::*;

verus! {

/// The environment variable with the log filter of the extensions.
pub const ENV_VAR: &'static str = "TAU_EXT_LOG";

/// The log filter where that variable is unset or cannot be read.
pub const DEFAULT_FILTER: &'static str = "info";

} // verus!
