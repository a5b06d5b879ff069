//! The master's single source of truth: the search range, the assignment
//! cursor, the primes confirmed so far, and the completion flag.
use vstd::prelude::*;
use crate::protocol::JobStatus;

verus! {

/// Prime lists the state keeps: strictly increasing, every entry at least 2.
/// Strict order makes the list duplicate-free, so re-reported segments never
/// bloat the result.
pub open spec fn primes_wf(s: Seq<u32>) -> bool {
    &&& forall|i: int| 0 <= i < s.len() ==> #[trigger] s[i] >= 2
    &&& forall|i: int, j: int| 0 <= i < j < s.len() ==> #[trigger] s[i] < #[trigger] s[j]
}

/// The primes every fresh state starts from: enough divisors to sieve the
/// first segments before any worker has reported.
pub open spec fn seed_primes() -> Seq<u32> {
    seq![
        2u32, 3, 5, 7, 11, 13, 17, 19, 23, 29, 31, 37, 41, 43, 47, 53, 59, 61, 67, 71, 73, 79, 83,
        89, 97,
    ]
}

/// Mathematical image of a `ServerState`.
pub ghost struct StateModel {
    pub start: u32,
    pub end: u32,
    pub step: u32,
    pub last_checked: u32,
    pub primes: Seq<u32>,
    pub status: JobStatus,
}

/// The state invariant: the cursor stays within the range, the step is
/// positive, the job is completed exactly when the cursor has reached the
/// end, and the confirmed primes are kept ascending and duplicate-free.
pub open spec fn state_wf(m: StateModel) -> bool {
    &&& m.start <= m.last_checked <= m.end
    &&& m.step >= 1
    &&& (m.status is Completed <==> m.last_checked == m.end)
    &&& primes_wf(m.primes)
}

/// The segment width a fresh state derives from its range: one twentieth of
/// the span, kept between 1 and 10000.
pub open spec fn derived_step(start: u32, end: u32) -> u32 {
    let s = ((end - start) as int) / 20;
    if s < 1 {
        1u32
    } else if s > 10000 {
        10000u32
    } else {
        s as u32
    }
}

/// The master's progress state for one job.
#[derive(Debug)]
pub struct ServerState {
    pub start: u32,
    pub end: u32,
    pub step: u32,
    pub last_checked: u32,
    pub primes: Vec<u32>,
    pub status: JobStatus,
}

impl View for ServerState {
    type V = StateModel;

    open spec fn view(&self) -> StateModel {
        StateModel {
            start: self.start,
            end: self.end,
            step: self.step,
            last_checked: self.last_checked,
            primes: self.primes@,
            status: self.status,
        }
    }
}

impl ServerState {
    pub open spec fn wf(&self) -> bool {
        state_wf(self@)
    }

    /// A fresh state over `[start, end]`: cursor at `start`, the seed primes
    /// confirmed, the step derived from the span, and the job completed only
    /// in the degenerate case of an empty span.
    pub fn new(start: u32, end: u32) -> (r: ServerState)
        requires
            start <= end,
        ensures
            r@ == (StateModel {
                start,
                end,
                step: derived_step(start, end),
                last_checked: start,
                primes: seed_primes(),
                status: if start == end {
                    JobStatus::Completed
                } else {
                    JobStatus::Processing
                },
            }),
            r.wf(),
    {
        let span = end - start;
        let mut step = span / 20;
        if step < 1 {
            step = 1;
        }
        if step > 10000 {
            step = 10000;
        }
        Self::with_step(start, end, step)
    }

    /// A fresh state with an explicitly chosen segment width.
    pub fn with_step(start: u32, end: u32, step: u32) -> (r: ServerState)
        requires
            start <= end,
            step >= 1,
        ensures
            r@ == (StateModel {
                start,
                end,
                step,
                last_checked: start,
                primes: seed_primes(),
                status: if start == end {
                    JobStatus::Completed
                } else {
                    JobStatus::Processing
                },
            }),
            r.wf(),
    {
        let mut primes: Vec<u32> = Vec::new();
        primes.push(2);
        primes.push(3);
        primes.push(5);
        primes.push(7);
        primes.push(11);
        primes.push(13);
        primes.push(17);
        primes.push(19);
        primes.push(23);
        primes.push(29);
        primes.push(31);
        primes.push(37);
        primes.push(41);
        primes.push(43);
        primes.push(47);
        primes.push(53);
        primes.push(59);
        primes.push(61);
        primes.push(67);
        primes.push(71);
        primes.push(73);
        primes.push(79);
        primes.push(83);
        primes.push(89);
        primes.push(97);
        proof {
            assert(primes@ =~= seed_primes());
        }
        let status = if start == end {
            JobStatus::Completed
        } else {
            JobStatus::Processing
        };
        ServerState { start, end, step, last_checked: start, primes, status }
    }

    /// Whether the job has finished; the server loop polls this to shut down.
    pub fn is_completed(&self) -> (r: bool)
        ensures
            r == (self@.status is Completed),
    {
        match self.status {
            JobStatus::Completed => true,
            JobStatus::Processing => false,
        }
    }

    /// Runtime check of the state invariant, for callers outside the
    /// verified core that cannot carry the proof.
    pub fn wf_check(&self) -> (r: bool)
        ensures
            r == self.wf(),
    {
        if !(self.start <= self.last_checked && self.last_checked <= self.end) {
            return false;
        }
        if self.step < 1 {
            return false;
        }
        let completed = self.is_completed();
        if completed != (self.last_checked == self.end) {
            return false;
        }
        let mut i: usize = 0;
        while i < self.primes.len()
            invariant
                i <= self.primes@.len(),
                forall|k: int| 0 <= k < i ==> #[trigger] self.primes@[k] >= 2,
                forall|k: int, l: int|
                    0 <= k < l < i ==> #[trigger] self.primes@[k] < #[trigger] self.primes@[l],
            decreases self.primes@.len() - i,
        {
            if self.primes[i] < 2 {
                return false;
            }
            if i > 0 && self.primes[i - 1] >= self.primes[i] {
                return false;
            }
            i = i + 1;
        }
        true
    }
}

} // verus!
