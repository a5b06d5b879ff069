//! The worker's step: what to do with each response from the master. The
//! surrounding loop only sends what this step hands back and feeds in what
//! arrives.
use vstd::prelude::*;
use crate::protocol::{ReqTask, Request, RespModel, RespTask, Response};
use crate::sieve::{divisors_complete, divisors_wf, has_divisor_in, sieve_segment};
use crate::is_prime;

verus! {

/// A `Range` response the worker can act on: all three payload fields are
/// present and the divisor list is fit for the sieve (or the range is empty,
/// where the divisors do not matter). Anything else is treated as malformed
/// and retried.
pub open spec fn range_usable(r: RespModel) -> bool {
    &&& r.start is Some
    &&& r.end is Some
    &&& r.primes is Some
    &&& (r.end->Some_0 < r.start->Some_0 || (divisors_wf(r.primes->Some_0) && r.end->Some_0
        - r.start->Some_0 < usize::MAX))
}

/// The task of the request the worker's step hands back: report a sieved
/// segment, retry after an acknowledgement or anything malformed, stop on
/// `Done` or `Error`.
pub open spec fn worker_task(r: RespModel) -> ReqTask {
    match r.task {
        RespTask::Range => if range_usable(r) {
            ReqTask::Save
        } else {
            ReqTask::Continue
        },
        RespTask::Continue => ReqTask::Continue,
        RespTask::Done => ReqTask::Close,
        RespTask::Error => ReqTask::Close,
    }
}

/// Whether a divisor list is fit for the sieve: every entry at least 2, in
/// non-decreasing order.
pub fn divisors_ok(primes: &Vec<u32>) -> (r: bool)
    ensures
        r == divisors_wf(primes@),
{
    let mut i: usize = 0;
    while i < primes.len()
        invariant
            i <= primes@.len(),
            forall|k: int| 0 <= k < i ==> #[trigger] primes@[k] >= 2,
            forall|k: int, l: int|
                0 <= k <= l < i ==> #[trigger] primes@[k] <= #[trigger] primes@[l],
        decreases primes@.len() - i,
    {
        if primes[i] < 2 {
            return false;
        }
        if i > 0 && primes[i - 1] > primes[i] {
            return false;
        }
        i = i + 1;
    }
    true
}

/// One step of the worker's loop, from the master's response to the next
/// request. An assigned range is sieved and reported as `Save` with the
/// survivors — exactly the primes of the segment whenever the master's
/// divisor handout is complete up to the square root of its upper bound. An
/// acknowledgement, like any response too malformed to act on, asks the loop
/// to go around again; `Done` and `Error` ask it to stop.
pub fn handler(response: Response) -> (request: Request)
    ensures
        request@.task == worker_task(response@),
        request@.task is Save ==> {
            &&& request@.end == response@.end
            &&& request@.primes is Some
        },
        (request@.task is Save && response@.start is Some && response@.end is Some
            && response@.primes is Some) ==> {
            let lo = response@.start->Some_0;
            let hi = response@.end->Some_0;
            let divs = response@.primes->Some_0;
            let found = request@.primes->Some_0;
            &&& forall|i: int, j: int| 0 <= i < j < found.len() ==> found[i] < found[j]
            &&& forall|x: u32|
                found.contains(x) <==> (lo <= x <= hi && !has_divisor_in(divs, x as int))
            &&& (lo >= 2 && divisors_complete(divs, hi as int)) ==> forall|x: u32|
                found.contains(x) <==> (lo <= x <= hi && is_prime(x as int))
        },
        !(request@.task is Save) ==> request@.end is None && request@.primes is None,
{
    match response.task {
        RespTask::Range => {
            let usable = if response.start.is_some() && response.end.is_some()
                && response.primes.is_some() {
                let lo = *response.start.as_ref().unwrap();
                let hi = *response.end.as_ref().unwrap();
                if hi < lo {
                    true
                } else if (hi as u64) - (lo as u64) < usize::MAX as u64 {
                    divisors_ok(response.primes.as_ref().unwrap())
                } else {
                    false
                }
            } else {
                false
            };
            if usable {
                let lo = response.start.unwrap();
                let hi = response.end.unwrap();
                let divs = response.primes.unwrap();
                let found = sieve_segment(lo, hi, divs);
                Request { task: ReqTask::Save, end: Some(hi), primes: Some(found) }
            } else {
                Request { task: ReqTask::Continue, end: None, primes: None }
            }
        },
        RespTask::Continue => Request { task: ReqTask::Continue, end: None, primes: None },
        _ => Request { task: ReqTask::Close, end: None, primes: None },
    }
}

} // verus!
