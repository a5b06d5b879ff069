//! The two message shapes exchanged between master and workers, and the
//! closed sets of task and status tags they carry.
use vstd::prelude::*;

verus! {

/// Task tag of a worker-to-master request. `Start` asks for a segment,
/// `Save` reports a finished one. `Continue` and `Close` are produced by the
/// worker's own step function to steer its loop; the master answers them,
/// like any tag it does not serve, with an error response.
#[derive(Clone, Copy, PartialEq, Eq, Structural, Debug)]
pub enum ReqTask {
    Start,
    Save,
    Continue,
    Close,
}

/// Task tag of a master-to-worker response. `Range` assigns a segment,
/// `Continue` acknowledges a save, `Done` carries the final result,
/// `Error` rejects a request the master could not serve.
#[derive(Clone, Copy, PartialEq, Eq, Structural, Debug)]
pub enum RespTask {
    Range,
    Continue,
    Done,
    Error,
}

/// Job status as reported in a response.
#[derive(Clone, Copy, PartialEq, Eq, Structural, Debug)]
pub enum RespStatus {
    Processing,
    Completed,
    Invalid,
}

/// Status of the master's own progress state.
#[derive(Clone, Copy, PartialEq, Eq, Structural, Debug)]
pub enum JobStatus {
    Processing,
    Completed,
}

impl ReqTask {
    /// The wire name of this tag.
    pub fn label(&self) -> (r: String)
        ensures
            r@ == self.spec_label(),
    {
        match self {
            ReqTask::Start => "start".to_owned(),
            ReqTask::Save => "save".to_owned(),
            ReqTask::Continue => "continue".to_owned(),
            ReqTask::Close => "close".to_owned(),
        }
    }

    pub open spec fn spec_label(self) -> Seq<char> {
        match self {
            ReqTask::Start => "start"@,
            ReqTask::Save => "save"@,
            ReqTask::Continue => "continue"@,
            ReqTask::Close => "close"@,
        }
    }
}

impl RespTask {
    /// The wire name of this tag.
    pub fn label(&self) -> (r: String)
        ensures
            r@ == self.spec_label(),
    {
        match self {
            RespTask::Range => "range".to_owned(),
            RespTask::Continue => "continue".to_owned(),
            RespTask::Done => "done".to_owned(),
            RespTask::Error => "error".to_owned(),
        }
    }

    pub open spec fn spec_label(self) -> Seq<char> {
        match self {
            RespTask::Range => "range"@,
            RespTask::Continue => "continue"@,
            RespTask::Done => "done"@,
            RespTask::Error => "error"@,
        }
    }
}

impl RespStatus {
    /// The wire name of this status.
    pub fn label(&self) -> (r: String)
        ensures
            r@ == self.spec_label(),
    {
        match self {
            RespStatus::Processing => "processing".to_owned(),
            RespStatus::Completed => "completed".to_owned(),
            RespStatus::Invalid => "invalid".to_owned(),
        }
    }

    pub open spec fn spec_label(self) -> Seq<char> {
        match self {
            RespStatus::Processing => "processing"@,
            RespStatus::Completed => "completed"@,
            RespStatus::Invalid => "invalid"@,
        }
    }
}

impl JobStatus {
    /// The wire name of this status.
    pub fn label(&self) -> (r: String)
        ensures
            r@ == self.spec_label(),
    {
        match self {
            JobStatus::Processing => "processing".to_owned(),
            JobStatus::Completed => "completed".to_owned(),
        }
    }

    pub open spec fn spec_label(self) -> Seq<char> {
        match self {
            JobStatus::Processing => "processing"@,
            JobStatus::Completed => "completed"@,
        }
    }

}

/// A worker-to-master message: the requested task, and for `Save` the upper
/// bound of the finished segment and the primes found in it.
#[derive(Debug)]
pub struct Request {
    pub task: ReqTask,
    pub end: Option<u32>,
    pub primes: Option<Vec<u32>>,
}

/// Mathematical image of a `Request`.
pub ghost struct ReqModel {
    pub task: ReqTask,
    pub end: Option<u32>,
    pub primes: Option<Seq<u32>>,
}

impl View for Request {
    type V = ReqModel;

    open spec fn view(&self) -> ReqModel {
        ReqModel {
            task: self.task,
            end: self.end,
            primes: match self.primes {
                Some(v) => Some(v@),
                None => None,
            },
        }
    }
}

/// A master-to-worker message: task tag, job status, and for `Range` the
/// assigned segment bounds with the divisor primes; for `Done` the full
/// result.
#[derive(Debug)]
pub struct Response {
    pub task: RespTask,
    pub status: RespStatus,
    pub start: Option<u32>,
    pub end: Option<u32>,
    pub primes: Option<Vec<u32>>,
}

/// Mathematical image of a `Response`.
pub ghost struct RespModel {
    pub task: RespTask,
    pub status: RespStatus,
    pub start: Option<u32>,
    pub end: Option<u32>,
    pub primes: Option<Seq<u32>>,
}

impl View for Response {
    type V = RespModel;

    open spec fn view(&self) -> RespModel {
        RespModel {
            task: self.task,
            status: self.status,
            start: self.start,
            end: self.end,
            primes: match self.primes {
                Some(v) => Some(v@),
                None => None,
            },
        }
    }
}

} // verus!
