//! Vocabulary of the telemetry collaborator: data categories, mission
//! timeline events, compression choices and alert levels.

use vstd::prelude::*;

verus! {

/// Categories of telemetry a spacecraft reports.
#[derive(Clone, Debug, PartialEq, Eq, Hash)]
pub enum TelemetryType {
    SystemHealth,
    PowerStatus,
    OrbitPosition,
    Communication,
    Payload,
    Temperature,
    Attitude,
    Custom(String),
}

impl TelemetryType {
    /// The printable name of the category.
    pub fn kind_name(&self) -> (r: &str)
        ensures
            self matches TelemetryType::Custom(name) ==> r@ == name@,
    {
        match self {
            TelemetryType::SystemHealth => "SystemHealth",
            TelemetryType::PowerStatus => "PowerStatus",
            TelemetryType::OrbitPosition => "OrbitPosition",
            TelemetryType::Communication => "Communication",
            TelemetryType::Payload => "Payload",
            TelemetryType::Temperature => "Temperature",
            TelemetryType::Attitude => "Attitude",
            TelemetryType::Custom(name) => name.as_str(),
        }
    }
}

/// Payload compression applied before downlink.
#[derive(Clone, Copy, Debug, PartialEq, Eq, Structural)]
pub enum CompressionType {
    Uncompressed,
    LZ4,
    Gzip,
    Custom,
}

/// Kinds of mission timeline events.
#[derive(Clone, Copy, Debug, PartialEq, Eq, Structural)]
pub enum EventType {
    DataCollection,
    GroundContact,
    OrbitManeuver,
    PayloadOperation,
    SystemMaintenance,
    Emergency,
}

/// Progress of a mission timeline event.
#[derive(Clone, Copy, Debug, PartialEq, Eq, Structural)]
pub enum EventStatus {
    Scheduled,
    InProgress,
    Completed,
    Failed,
    Cancelled,
}

/// Severity of a telemetry alert.
#[derive(Clone, Copy, Debug, PartialEq, Eq, Structural)]
pub enum AlertLevel {
    Info,
    Warning,
    Critical,
    Emergency,
}

} // verus!
