//! Planning issues, allocation kinds and calculation states.
use vstd::prelude::*;

verus! {

/// Why a task or the project could not be planned.
#[derive(Clone, Copy, Debug, PartialEq, Eq, Structural)]
pub enum IssueCode {
    PredIssue,
    RequirementMissing,
    MilestoneMissing,
    ResourceMissing,
    NoEffort,
    NoSlotFound,
    DependencyLoop,
    HierarchyLoop,
    Unknown,
}

pub open spec fn issue_code_number(c: IssueCode) -> u32 {
    match c {
        IssueCode::PredIssue => 101,
        IssueCode::RequirementMissing => 201,
        IssueCode::MilestoneMissing => 202,
        IssueCode::ResourceMissing => 203,
        IssueCode::NoEffort => 204,
        IssueCode::NoSlotFound => 301,
        IssueCode::DependencyLoop => 302,
        IssueCode::HierarchyLoop => 303,
        IssueCode::Unknown => 999,
    }
}

impl IssueCode {
    /// The number under which the code is stored.
    pub fn number(&self) -> (r: u32)
        ensures
            r == issue_code_number(*self),
    {
        match self {
            IssueCode::PredIssue => 101,
            IssueCode::RequirementMissing => 201,
            IssueCode::MilestoneMissing => 202,
            IssueCode::ResourceMissing => 203,
            IssueCode::NoEffort => 204,
            IssueCode::NoSlotFound => 301,
            IssueCode::DependencyLoop => 302,
            IssueCode::HierarchyLoop => 303,
            IssueCode::Unknown => 999,
        }
    }

    /// The code stored under `n`; `Unknown` for a number that names none.
    pub fn from_number(n: u32) -> (r: IssueCode)
        ensures
            issue_code_number(r) == n || (r == IssueCode::Unknown && forall|c: IssueCode|
                issue_code_number(c) != n),
    {
        let r = if n == 101 {
            IssueCode::PredIssue
        } else if n == 201 {
            IssueCode::RequirementMissing
        } else if n == 202 {
            IssueCode::MilestoneMissing
        } else if n == 203 {
            IssueCode::ResourceMissing
        } else if n == 204 {
            IssueCode::NoEffort
        } else if n == 301 {
            IssueCode::NoSlotFound
        } else if n == 302 {
            IssueCode::DependencyLoop
        } else if n == 303 {
            IssueCode::HierarchyLoop
        } else {
            IssueCode::Unknown
        };
        r
    }
}

/// Where an issue comes from.
#[derive(Clone, Copy, Debug, PartialEq, Eq, Structural)]
pub enum IssueType {
    Task,
    PlanningTask,
    PlanningGeneral,
    General,
}

/// Whether an allocation is planned or booked.
#[derive(Clone, Copy, Debug, PartialEq, Eq, Structural)]
pub enum AllocationType {
    Plan,
    Booking,
}

/// What the recalculation is doing.
#[derive(Clone, Copy, Debug, PartialEq, Eq, Structural)]
pub enum CalculationState {
    Modified,
    Calculating,
    Finished,
}

/// An issue found while planning, bound to a task when `task_id` is set.
#[derive(Clone, Debug)]
pub struct PlanningIssue {
    pub code: IssueCode,
    pub description: String,
    pub task_id: Option<i32>,
}

impl PlanningIssue {
    /// The kind under which the issue is stored: task-bound or general.
    pub fn issue_type(&self) -> (r: IssueType)
        ensures
            r == (if self.task_id is Some {
                IssueType::PlanningTask
            } else {
                IssueType::PlanningGeneral
            }),
    {
        if self.task_id.is_some() {
            IssueType::PlanningTask
        } else {
            IssueType::PlanningGeneral
        }
    }
}

/// An error with a message.
#[derive(Debug)]
pub struct SiaplaError {
    msg: String,
}

impl SiaplaError {
    pub fn new(msg: String) -> (r: SiaplaError)
        ensures
            r.message_spec() == msg@,
    {
        SiaplaError { msg }
    }

    pub closed spec fn message_spec(&self) -> Seq<char> {
        self.msg@
    }

    /// The message, as the error is displayed.
    pub fn message(&self) -> (r: String)
        ensures
            r@ == self.message_spec(),
    {
        self.msg.clone()
    }
}

} // verus!
