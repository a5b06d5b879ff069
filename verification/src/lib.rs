//! Master/worker coordination for computing all primes up to a bound.
//!
//! The master owns a progress state and hands out disjoint segments of the
//! search range; workers sieve their segment with the divisor primes the
//! master supplies and report what they found. This crate holds the verified
//! core: the segmented sieve, the progress state, the coordinator transition
//! function, the worker's step function, and the wire codec. The datagram
//! loops around it are ordinary I/O and live outside.
pub mod codec;
pub mod coordinator;
pub mod protocol;
pub mod sieve;
pub mod state;
pub mod worker;

use vstd::prelude::*;

verus! {

/// True of integers with no divisor other than 1 and themselves.
pub open spec fn is_prime(n: int) -> bool {
    n >= 2 && forall|d: int| 2 <= d < n ==> #[trigger] (n % d) != 0
}

} // verus!
