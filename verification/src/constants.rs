//! Application-wide constants.

use vstd::prelude::*;

verus! {

/// Number of minutes to predict forward when drawing the trailing orbital path.
pub const ORBITAL_TRAIL_MINUTES: i64 = 90;

/// Maximum number of minutes to look ahead when predicting the next overhead pass.
pub const PASS_SEARCH_MINUTES: i64 = 1440;

} // verus!
