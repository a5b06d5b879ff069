//! The master's transition function: one request against the progress
//! state yields the next state and the response, and the laws that hold of
//! every such transition.
use vstd::prelude::*;
use crate::codec::{spec_enc_req, spec_enc_resp};
use crate::protocol::{JobStatus, ReqModel, ReqTask, Request, RespModel, RespStatus, RespTask,
    Response};
use crate::state::{primes_wf, state_wf, ServerState, StateModel};
use crate::is_prime;

verus! {

/// The upper bound of the segment a `Start` request is assigned:
/// one step past the cursor, clamped to the end of the range.
pub open spec fn assigned_end(m: StateModel) -> u32 {
    if m.last_checked + m.step <= m.end {
        (m.last_checked + m.step) as u32
    } else {
        m.end
    }
}

/// Reported primes folded into the confirmed list: entries are taken in
/// order, keeping only those that extend the list upward, so the list stays
/// ascending and duplicate-free and never loses what it already holds.
pub open spec fn merge_primes(acc: Seq<u32>, ps: Seq<u32>) -> Seq<u32>
    decreases ps.len(),
{
    if ps.len() == 0 {
        acc
    } else if (acc.len() == 0 && ps[0] >= 2) || (acc.len() > 0 && ps[0] > acc.last()) {
        merge_primes(acc.push(ps[0]), ps.skip(1))
    } else {
        merge_primes(acc, ps.skip(1))
    }
}

/// Folding reported primes into a well-formed list keeps it well-formed and
/// only ever appends.
pub proof fn lemma_merge_primes_wf(acc: Seq<u32>, ps: Seq<u32>)
    requires
        primes_wf(acc),
    ensures
        primes_wf(merge_primes(acc, ps)),
        acc.is_prefix_of(merge_primes(acc, ps)),
    decreases ps.len(),
{
    if ps.len() == 0 {
    } else if (acc.len() == 0 && ps[0] >= 2) || (acc.len() > 0 && ps[0] > acc.last()) {
        let acc2 = acc.push(ps[0]);
        assert(primes_wf(acc2)) by {
            assert(forall|i: int| 0 <= i < acc.len() ==> acc2[i] == acc[i]);
            assert(acc2[acc.len() as int] == ps[0]);
            if acc.len() > 0 {
                assert(forall|i: int|
                    0 <= i < acc.len() ==> #[trigger] acc[i] <= acc.last()) by {
                    assert(forall|i: int|
                        0 <= i < acc.len() - 1 ==> #[trigger] acc[i] < acc[acc.len() - 1]);
                }
            }
        }
        lemma_merge_primes_wf(acc2, ps.skip(1));
        let r = merge_primes(acc2, ps.skip(1));
        assert(acc.is_prefix_of(r)) by {
            assert(acc2 =~= r.subrange(0, acc2.len() as int));
            assert(acc =~= r.subrange(0, acc.len() as int));
        }
    } else {
        lemma_merge_primes_wf(acc, ps.skip(1));
    }
}

/// What folding a strictly ascending report holds, value by value: the old
/// entries, and the reported ones that extend past the old maximum.
pub proof fn lemma_merge_primes_content(acc: Seq<u32>, ps: Seq<u32>)
    requires
        primes_wf(acc),
        acc.len() > 0,
        forall|i: int, j: int| 0 <= i < j < ps.len() ==> ps[i] < ps[j],
    ensures
        forall|x: u32|
            merge_primes(acc, ps).contains(x) <==> (acc.contains(x) || (ps.contains(x) && x
                > acc.last())),
    decreases ps.len(),
{
    if ps.len() == 0 {
        assert(forall|x: u32| !ps.contains(x));
    } else {
        let h = ps[0];
        let rest = ps.skip(1);
        assert forall|x: u32| ps.contains(x) implies x == h || rest.contains(x) by {
            let k = choose|k: int| 0 <= k < ps.len() && ps[k] == x;
            if k > 0 {
                assert(rest[k - 1] == x);
            }
        }
        assert forall|x: u32| rest.contains(x) implies ps.contains(x) && (x != h) by {
            let k = choose|k: int| 0 <= k < rest.len() && rest[k] == x;
            assert(ps[k + 1] == x);
            assert(ps[0] < ps[k + 1]);
        }
        if h > acc.last() {
            let acc2 = acc.push(h);
            assert(primes_wf(acc2)) by {
                assert(forall|i: int| 0 <= i < acc.len() ==> acc2[i] == acc[i]);
                assert(acc2[acc.len() as int] == h);
                assert(forall|i: int|
                    0 <= i < acc.len() - 1 ==> #[trigger] acc[i] < acc[acc.len() - 1]);
            }
            assert forall|x: u32| acc2.contains(x) implies acc.contains(x) || x == h by {
                let k = choose|k: int| 0 <= k < acc2.len() && acc2[k] == x;
                if k < acc.len() {
                    assert(acc[k] == x);
                }
            }
            assert(acc2.contains(h)) by {
                assert(acc2[acc.len() as int] == h);
            }
            assert forall|x: u32| acc.contains(x) implies acc2.contains(x) && x <= acc.last() by {
                let k = choose|k: int| 0 <= k < acc.len() && acc[k] == x;
                assert(acc2[k] == x);
                if k < acc.len() - 1 {
                    assert(acc[k] < acc[acc.len() - 1]);
                }
            }
            lemma_merge_primes_content(acc2, rest);
            assert(merge_primes(acc, ps) == merge_primes(acc2, rest));
            assert(acc2.last() == h);
        } else {
            lemma_merge_primes_content(acc, rest);
            assert(merge_primes(acc, ps) == merge_primes(acc, rest));
        }
    }
}

/// Honest aggregation: when the confirmed list holds exactly the primes up
/// to some frontier, and a save reports exactly the primes of a segment that
/// begins no later than just past that frontier, the list after the
/// transition holds exactly the primes up to the farther of the two bounds.
/// Duplicated and overlapping reports change nothing they should not.
pub proof fn lemma_honest_save_aggregates(m: StateModel, r: ReqModel, frontier: u32, lo: u32)
    requires
        state_wf(m),
        m.status is Processing,
        r.task is Save,
        reported_end(r) > m.last_checked,
        2 <= frontier,
        lo as int <= frontier as int + 1,
        forall|x: u32|
            #[trigger] m.primes.contains(x) <==> (x <= frontier && is_prime(x as int)),
        forall|x: u32|
            #[trigger] reported_primes(r).contains(x) <==> (lo <= x <= reported_end(r) && is_prime(
                x as int,
            )),
        forall|i: int, j: int|
            0 <= i < j < reported_primes(r).len() ==> reported_primes(r)[i] < reported_primes(r)[j],
    ensures
        forall|x: u32|
            #[trigger] step_state(m, r).primes.contains(x) <==> ((x <= frontier || x
                <= reported_end(r)) && is_prime(x as int)),
{
    let e = reported_end(r);
    let rp = reported_primes(r);
    assert(m.primes.contains(2)) by {
        assert(is_prime(2)) by {
            assert(forall|d: int| 2 <= d < 2 ==> #[trigger] (2int % d) != 0);
        }
    }
    assert(m.primes.len() > 0);
    let top = m.primes.last();
    assert(m.primes.contains(top)) by {
        assert(m.primes[m.primes.len() - 1] == top);
    }
    assert(top <= frontier && is_prime(top as int));
    // no prime sits between the largest confirmed prime and the frontier
    assert forall|x: u32| x <= frontier && is_prime(x as int) implies x <= top by {
        assert(m.primes.contains(x));
        let k = choose|k: int| 0 <= k < m.primes.len() && m.primes[k] == x;
        if k < m.primes.len() - 1 {
            assert(m.primes[k] < m.primes[m.primes.len() - 1]);
        }
    }
    lemma_merge_primes_content(m.primes, rp);
    assert(step_state(m, r).primes == merge_primes(m.primes, rp));
    assert forall|x: u32|
        #[trigger] step_state(m, r).primes.contains(x) <==> ((x <= frontier || x <= e) && is_prime(
        x as int)) by {
        if merge_primes(m.primes, rp).contains(x) {
            assert(m.primes.contains(x) || (rp.contains(x) && x > top));
        }
        if (x <= frontier || x <= e) && is_prime(x as int) {
            if x <= frontier {
                assert(m.primes.contains(x));
            } else {
                assert(frontier < x <= e);
                assert(lo <= x);
                assert(rp.contains(x));
                assert(x > top);
            }
            assert(merge_primes(m.primes, rp).contains(x));
        }
    }
}

/// The segment bound a `Save` request reports, an absent field counting as
/// no progress.
pub open spec fn reported_end(r: ReqModel) -> u32 {
    match r.end {
        Some(e) => e,
        None => 0u32,
    }
}

/// The primes a `Save` request reports, an absent field counting as none.
pub open spec fn reported_primes(r: ReqModel) -> Seq<u32> {
    match r.primes {
        Some(p) => p,
        None => Seq::<u32>::empty(),
    }
}

/// The state after one request is served. A completed job never changes.
/// `Start` assigns without advancing, so a lost worker costs duplicate work,
/// never lost work. `Save` advances the cursor to the reported bound when
/// that bound is new, clamped to the end of the range, folds the reported
/// primes in, and completes the job when the cursor reaches the end. Every
/// other task leaves the state alone.
pub open spec fn step_state(m: StateModel, r: ReqModel) -> StateModel {
    if m.status is Completed {
        m
    } else {
        match r.task {
            ReqTask::Save => {
                let e = reported_end(r);
                if e > m.last_checked {
                    let c = if e <= m.end {
                        e
                    } else {
                        m.end
                    };
                    StateModel {
                        last_checked: c,
                        primes: merge_primes(m.primes, reported_primes(r)),
                        status: if c == m.end {
                            JobStatus::Completed
                        } else {
                            JobStatus::Processing
                        },
                        ..m
                    }
                } else {
                    m
                }
            },
            _ => m,
        }
    }
}

/// The response to a request answered while the job is already completed, or
/// that completes it: `Done` with the full result.
pub open spec fn done_resp(primes: Seq<u32>) -> RespModel {
    RespModel {
        task: RespTask::Done,
        status: RespStatus::Completed,
        start: None,
        end: None,
        primes: Some(primes),
    }
}

/// The acknowledgement of a `Save` that leaves work remaining.
pub open spec fn continue_resp() -> RespModel {
    RespModel {
        task: RespTask::Continue,
        status: RespStatus::Processing,
        start: None,
        end: None,
        primes: None,
    }
}

/// The answer to a request the master cannot serve; always recoverable by
/// sending `Start` again.
pub open spec fn error_resp() -> RespModel {
    RespModel {
        task: RespTask::Error,
        status: RespStatus::Invalid,
        start: None,
        end: None,
        primes: None,
    }
}

/// The response to one request. A completed job answers everything with
/// `Done` and the full result. While processing, `Start` is answered with
/// the assigned segment and the confirmed primes as the divisor set, `Save`
/// with `Done` when it completes the job and an acknowledgement otherwise,
/// and anything else with an error.
pub open spec fn step_response(m: StateModel, r: ReqModel) -> RespModel {
    if m.status is Completed {
        done_resp(m.primes)
    } else {
        match r.task {
            ReqTask::Start => RespModel {
                task: RespTask::Range,
                status: RespStatus::Processing,
                start: Some(m.last_checked),
                end: Some(assigned_end(m)),
                primes: Some(m.primes),
            },
            ReqTask::Save => {
                let m2 = step_state(m, r);
                if m2.status is Completed {
                    done_resp(m2.primes)
                } else {
                    continue_resp()
                }
            },
            _ => error_resp(),
        }
    }
}

/// An exact copy of a prime list.
fn clone_primes(v: &Vec<u32>) -> (r: Vec<u32>)
    ensures
        r@ == v@,
{
    let mut r: Vec<u32> = Vec::new();
    let mut i: usize = 0;
    while i < v.len()
        invariant
            i <= v@.len(),
            r@ == v@.subrange(0, i as int),
        decreases v@.len() - i,
    {
        r.push(v[i]);
        proof {
            assert(r@ =~= v@.subrange(0, i + 1));
        }
        i = i + 1;
    }
    proof {
        assert(r@ =~= v@);
    }
    r
}

/// Serves one request against the progress state: the state moves exactly
/// one `step_state` transition and the response is exactly `step_response`,
/// so the transition table is the whole story. Must run under exclusive
/// access to the state; nothing here blocks, so the exclusive section is as
/// short as the transition itself.
pub fn handler(server_state: &mut ServerState, request: Request) -> (response: Response)
    requires
        old(server_state).wf(),
    ensures
        final(server_state).wf(),
        final(server_state)@ == step_state(old(server_state)@, request@),
        response@ == step_response(old(server_state)@, request@),
{
    proof {
        lemma_step_preserves_wf(old(server_state)@, request@);
    }
    let completed = server_state.is_completed();
    if completed {
        return Response {
            task: RespTask::Done,
            status: RespStatus::Completed,
            start: None,
            end: None,
            primes: Some(clone_primes(&server_state.primes)),
        };
    }
    match request.task {
        ReqTask::Start => {
            let remaining = server_state.end - server_state.last_checked;
            let seg_end = if remaining <= server_state.step {
                server_state.end
            } else {
                server_state.last_checked + server_state.step
            };
            Response {
                task: RespTask::Range,
                status: RespStatus::Processing,
                start: Some(server_state.last_checked),
                end: Some(seg_end),
                primes: Some(clone_primes(&server_state.primes)),
            }
        },
        ReqTask::Save => {
            let e = match request.end {
                Some(e) => e,
                None => 0,
            };
            if e > server_state.last_checked {
                let c = if e <= server_state.end {
                    e
                } else {
                    server_state.end
                };
                server_state.last_checked = c;
                let reported = match request.primes {
                    Some(p) => p,
                    None => Vec::new(),
                };
                merge_into(&mut server_state.primes, &reported);
                if c == server_state.end {
                    server_state.status = JobStatus::Completed;
                    return Response {
                        task: RespTask::Done,
                        status: RespStatus::Completed,
                        start: None,
                        end: None,
                        primes: Some(clone_primes(&server_state.primes)),
                    };
                }
            }
            Response {
                task: RespTask::Continue,
                status: RespStatus::Processing,
                start: None,
                end: None,
                primes: None,
            }
        },
        _ => Response {
            task: RespTask::Error,
            status: RespStatus::Invalid,
            start: None,
            end: None,
            primes: None,
        },
    }
}

/// Folds a reported prime list into the confirmed one, in place.
fn merge_into(acc: &mut Vec<u32>, ps: &Vec<u32>)
    ensures
        final(acc)@ == merge_primes(old(acc)@, ps@),
{
    let mut i: usize = 0;
    proof {
        assert(ps@.skip(0) =~= ps@);
    }
    while i < ps.len()
        invariant
            i <= ps@.len(),
            merge_primes(old(acc)@, ps@) == merge_primes(acc@, ps@.skip(i as int)),
        decreases ps@.len() - i,
    {
        let tail_len = acc.len();
        let take = if tail_len == 0 {
            ps[i] >= 2
        } else {
            ps[i] > acc[tail_len - 1]
        };
        proof {
            let rest = ps@.skip(i as int);
            assert(rest[0] == ps@[i as int]);
            assert(rest.skip(1) =~= ps@.skip(i + 1));
            if acc@.len() > 0 {
                assert(acc@.last() == acc@[acc@.len() - 1]);
            }
        }
        if take {
            acc.push(ps[i]);
        }
        i = i + 1;
    }
    proof {
        assert(ps@.skip(ps@.len() as int) =~= Seq::<u32>::empty());
    }
}

/// Serves one raw datagram: decodes it, runs the transition, and returns the
/// encoded response. Must run under exclusive access to the state. A payload
/// that is not a canonical request leaves the state untouched and yields the
/// encoded error response, never a crash — the worker recovers by asking
/// again.
pub fn handle_datagram(server_state: &mut ServerState, data: &[u8]) -> (out: Vec<u8>)
    requires
        old(server_state).wf(),
    ensures
        final(server_state).wf(),
        forall|m: ReqModel|
            data@ == spec_enc_req(m) ==> (final(server_state)@ == step_state(
                old(server_state)@,
                m,
            ) && out@ == spec_enc_resp(step_response(old(server_state)@, m))),
        (forall|m: ReqModel| data@ != spec_enc_req(m)) ==> (*final(server_state) == *old(
            server_state,
        ) && out@ == spec_enc_resp(error_resp())),
{
    match Request::from_json(data) {
        Some(req) => {
            let resp = handler(server_state, req);
            resp.to_json()
        },
        None => {
            let resp = Response {
                task: RespTask::Error,
                status: RespStatus::Invalid,
                start: None,
                end: None,
                primes: None,
            };
            resp.to_json()
        },
    }
}

/// Every transition preserves the state invariant.
pub proof fn lemma_step_preserves_wf(m: StateModel, r: ReqModel)
    requires
        state_wf(m),
    ensures
        state_wf(step_state(m, r)),
{
    lemma_merge_primes_wf(m.primes, reported_primes(r));
}

/// Completion is idempotent: once the job is completed, any further request,
/// of any task, leaves the state untouched and is answered `Done` with the
/// unchanged prime list.
pub proof fn lemma_completed_idempotent(m: StateModel, r: ReqModel)
    requires
        m.status is Completed,
    ensures
        step_state(m, r) == m,
        step_response(m, r) == done_resp(m.primes),
{
}

/// One transition never moves the cursor backward, never loses a confirmed
/// prime, and never touches the configured range or step.
pub proof fn lemma_step_monotone(m: StateModel, r: ReqModel)
    requires
        state_wf(m),
    ensures
        state_wf(step_state(m, r)),
        step_state(m, r).last_checked >= m.last_checked,
        m.primes.is_prefix_of(step_state(m, r).primes),
        step_state(m, r).start == m.start,
        step_state(m, r).end == m.end,
        step_state(m, r).step == m.step,
{
    lemma_merge_primes_wf(m.primes, reported_primes(r));
    assert(m.primes.is_prefix_of(m.primes)) by {
        assert(m.primes.subrange(0, m.primes.len() as int) =~= m.primes);
    }
}

/// The state after a whole sequence of requests is served in order.
pub open spec fn run_requests(m: StateModel, rs: Seq<ReqModel>) -> StateModel
    decreases rs.len(),
{
    if rs.len() == 0 {
        m
    } else {
        run_requests(step_state(m, rs[0]), rs.skip(1))
    }
}

/// Across any sequence of transitions, in any arrival order — duplicate and
/// overlapping reports included — the cursor is non-decreasing and the
/// confirmed primes are append-only.
pub proof fn lemma_run_monotone(m: StateModel, rs: Seq<ReqModel>)
    requires
        state_wf(m),
    ensures
        state_wf(run_requests(m, rs)),
        run_requests(m, rs).last_checked >= m.last_checked,
        m.primes.is_prefix_of(run_requests(m, rs).primes),
    decreases rs.len(),
{
    if rs.len() == 0 {
        assert(m.primes.subrange(0, m.primes.len() as int) =~= m.primes);
    } else {
        lemma_step_monotone(m, rs[0]);
        let m2 = step_state(m, rs[0]);
        lemma_run_monotone(m2, rs.skip(1));
        let mf = run_requests(m, rs);
        assert(m.primes.is_prefix_of(mf.primes)) by {
            assert(m.primes.is_prefix_of(m2.primes));
            assert(m2.primes.is_prefix_of(mf.primes));
            assert(m.primes =~= mf.primes.subrange(0, m.primes.len() as int)) by {
                assert(forall|i: int|
                    0 <= i < m.primes.len() ==> m.primes[i] == m2.primes[i] && m2.primes[i]
                        == mf.primes[i]);
            }
        }
    }
}

/// Over-assignment, made explicit: two `Start` requests served before any
/// `Save` — concurrent workers asking at once — are both answered with the
/// very same segment, and neither disturbs the state or the confirmed
/// primes.
pub proof fn lemma_concurrent_starts_same_range(m: StateModel, r1: ReqModel, r2: ReqModel)
    requires
        state_wf(m),
        r1.task is Start,
        r2.task is Start,
    ensures
        step_state(m, r1) == m,
        step_state(step_state(m, r1), r2) == m,
        step_response(step_state(m, r1), r2) == step_response(m, r1),
        step_response(m, r2) == step_response(m, r1),
{
}

} // verus!
