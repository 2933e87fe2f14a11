//! Errors the planner reports.
use vstd::prelude::*;
use vstd::string::*;

verus! {

/// Why a schedule could not be made.
#[derive(Debug)]
pub enum ScheduleError {
    EmptyTaskList,
    InvalidDuration(String),
    InvalidPriority(String),
    InvalidDeadline(String),
    SchedulingFailed(String),
}

/// The text of an error.
pub open spec fn error_message(e: ScheduleError) -> Seq<char> {
    match e {
        ScheduleError::EmptyTaskList => "No tasks provided"@,
        ScheduleError::InvalidDuration(msg) => "Invalid duration: "@ + msg@,
        ScheduleError::InvalidPriority(msg) => "Invalid priority: "@ + msg@,
        ScheduleError::InvalidDeadline(msg) => "Invalid deadline: "@ + msg@,
        ScheduleError::SchedulingFailed(msg) => "Scheduling failed: "@ + msg@,
    }
}

impl ScheduleError {
    /// The text shown to the user.
    pub fn message(&self) -> (m: String)
        ensures
            m@ == error_message(*self),
    {
        match self {
            ScheduleError::EmptyTaskList => String::from_str("No tasks provided"),
            ScheduleError::InvalidDuration(msg) => String::from_str("Invalid duration: ").concat(
                msg.as_str(),
            ),
            ScheduleError::InvalidPriority(msg) => String::from_str("Invalid priority: ").concat(
                msg.as_str(),
            ),
            ScheduleError::InvalidDeadline(msg) => String::from_str("Invalid deadline: ").concat(
                msg.as_str(),
            ),
            ScheduleError::SchedulingFailed(msg) => String::from_str("Scheduling failed: ").concat(
                msg.as_str(),
            ),
        }
    }
}

} // verus!
