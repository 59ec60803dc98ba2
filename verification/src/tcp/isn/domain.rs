//! Domain tags that keep the uses of the keyed hash apart.
use vstd::prelude::*;

verus! {

/// Start and stride of the ephemeral-port search.
pub const EPHEMERAL_PORT: u8 = 1;

/// Jitter of the challenge-ACK budget.
pub const CHALLENGE_ACK: u8 = 2;

/// IPv4 identification values.
pub const IP_IDENT: u8 = 3;

} // verus!
