//! Vocabulary of the spacecraft collaborator: frame and payload kinds,
//! command categories and their lifecycle, and on-board emergencies.

use vstd::prelude::*;

verus! {

/// Frame categories of the spacecraft link protocol.
#[derive(Clone, Copy, Debug, PartialEq, Eq, Structural)]
pub enum FrameType {
    Telemetry,
    Command,
    Acknowledgment,
    Emergency,
    Beacon,
    FileTransfer,
    TimeSync,
}

impl FrameType {
    /// The wire code of the frame category.
    pub fn code(&self) -> (c: u8)
        ensures
            1 <= c <= 7,
    {
        match self {
            FrameType::Telemetry => 1,
            FrameType::Command => 2,
            FrameType::Acknowledgment => 3,
            FrameType::Emergency => 4,
            FrameType::Beacon => 5,
            FrameType::FileTransfer => 6,
            FrameType::TimeSync => 7,
        }
    }
}

/// Instruments a mission can fly.
#[derive(Clone, Copy, Debug, PartialEq, Eq, Structural)]
pub enum PayloadType {
    Camera,
    Spectrometer,
    Magnetometer,
    RadioReceiver,
    Scientific,
    Technology,
}

/// Commands the spacecraft executes.
#[derive(Clone, Copy, Debug, PartialEq, Eq, Structural)]
pub enum CommandType {
    SystemReboot,
    PayloadActivate,
    PayloadDeactivate,
    AttitudeControl,
    PowerManagement,
    DataDownload,
    ConfigUpdate,
    EmergencyMode,
}

/// Lifecycle of a queued command.
#[derive(Clone, Copy, Debug, PartialEq, Eq, Structural)]
pub enum CommandStatus {
    Queued,
    Executing,
    Completed,
    Failed,
    Cancelled,
}

/// On-board emergencies a spacecraft can enter.
#[derive(Clone, Copy, Debug, PartialEq, Eq, Structural)]
pub enum EmergencyType {
    PowerCritical,
    ThermalEmergency,
    CommunicationLoss,
    AttitudeFailure,
    PayloadMalfunction,
}

} // verus!
