//! The plain vocabulary of the motion stack: the commander/NC command and
//! token-lifecycle enums, the flying-saw engagement phase and the motion
//! planning error.

use vstd::prelude::*;

verus! {

/// Axis identifier within one NC process.
pub type AxisId = u16;

/// Monotonic command token; a new token is the rising edge of execution.
pub type Token = u32;

/// `PLCopen`-verb command kind (buffer mode is aborting-only).
#[derive(Clone, Copy, Debug, PartialEq, Eq, Structural)]
pub enum CommandKind {
    /// `MC_Power`: walk to `OperationEnabled`.
    Power,
    /// `MC_Reset`: clear fault, return to `Standstill`.
    Reset,
    /// `MC_Stop`: controlled stop, axis stays busy until a new token.
    Stop,
    /// `MC_Halt`: controlled stop, re-commandable.
    Halt,
    /// `MC_MoveVelocity`.
    MoveVelocity,
    /// `MC_MoveAbsolute`.
    MoveAbsolute,
    /// `MC_MoveRelative`.
    MoveRelative,
    /// `MC_GearIn`.
    GearIn,
    /// `MC_CamIn`.
    CamIn,
    /// Flying-saw engage.
    FlyingSaw,
    /// `MC_MoveSuperimposed`.
    Superimpose,
}

/// `PLCopen`-ish axis state, published each cycle.
#[derive(Clone, Copy, Debug, PartialEq, Eq, Structural)]
pub enum AxisState {
    /// Power off.
    Disabled,
    /// Enabled, at rest, no active motion.
    Standstill,
    /// Executing a discrete (point-to-point) move.
    DiscreteMotion,
    /// Executing a continuous (velocity) move.
    ContinuousMotion,
    /// Following a master (gear/cam/flying-saw).
    SynchronizedMotion,
    /// Performing a commanded stop.
    Stopping,
    /// Faulted; quickstopping or stopped.
    ErrorStop,
}

/// Lifecycle of the last-seen token.
#[derive(Clone, Copy, Debug, PartialEq, Eq, Structural)]
pub enum TokenState {
    /// No command in flight.
    Idle,
    /// Command accepted and executing.
    Active,
    /// Command completed.
    Done,
    /// Superseded by a newer token or a fault.
    Aborted,
    /// Rejected (e.g. infeasible).
    Error,
}

/// Engagement phase of the flying saw.
#[derive(Clone, Copy, Debug, PartialEq, Eq, Structural)]
pub enum Phase {
    /// Catch-up from home to the synchronous position.
    SyncOn,
    /// Following the master 1:1 over the working window.
    Synchronous,
    /// Return to home.
    Return,
    /// At rest at home, cycle complete (awaiting re-arm).
    Waiting,
}

/// Why a motion profile or coupling could not be planned.
#[derive(Clone, Copy, Debug, PartialEq, Eq, Structural)]
pub enum MotionError {
    /// A kinematic limit (`v_max`, `a_max`, or `j_max`) was zero or negative.
    NonPositiveLimit,
    /// The requested target position lies outside the configured soft limits.
    TargetOutOfLimits,
    /// A coupling referenced a master axis index that is out of range or is not
    /// ordered upstream of the slave.
    InvalidMaster,
    /// A planned duration was zero or negative.
    NonPositiveDuration,
    /// An engagement cannot be executed within the supplied kinematic limits.
    InfeasibleEngagement,
}

/// The human-readable message of a motion error.
pub open spec fn motion_error_message(e: MotionError) -> Seq<char> {
    match e {
        MotionError::NonPositiveLimit => "kinematic limit must be strictly positive"@,
        MotionError::TargetOutOfLimits => "target position is outside the soft limits"@,
        MotionError::InvalidMaster => "coupling master index is invalid or not upstream"@,
        MotionError::NonPositiveDuration => "planned duration must be strictly positive"@,
        MotionError::InfeasibleEngagement => "engagement is infeasible within the kinematic limits"@,
    }
}

impl MotionError {
    /// The human-readable message of this error.
    pub fn message(&self) -> (r: &'static str)
        ensures
            r@ == motion_error_message(*self),
    {
        match self {
            MotionError::NonPositiveLimit => "kinematic limit must be strictly positive",
            MotionError::TargetOutOfLimits => "target position is outside the soft limits",
            MotionError::InvalidMaster => "coupling master index is invalid or not upstream",
            MotionError::NonPositiveDuration => "planned duration must be strictly positive",
            MotionError::InfeasibleEngagement => "engagement is infeasible within the kinematic limits",
        }
    }
}

} // verus!
