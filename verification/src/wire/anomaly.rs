//! What only the parser can see, because it is the only code that reads the option and extension
//! header chains. The sanity checks turn these into verdicts; the parser states no policy.

use vstd::prelude::*;

verus! {

pub const IP_OPTIONS_PRESENT: u8 = 1;

pub const IPV6_EXT_PRESENT: u8 = 2;

} // verus!
