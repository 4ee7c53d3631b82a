//! Vocabulary of the ground-station collaborator: station and session
//! states, command and emergency categories, and the protocol handler
//! interface with its ESA-flavoured implementation.

use vstd::prelude::*;

verus! {

/// Antenna polarization of a station's frequency band.
#[derive(Clone, Copy, Debug, PartialEq, Eq, Structural)]
pub enum Polarization {
    Linear,
    Circular,
    RHCP,
    LHCP,
}

/// Operational state of a ground station.
#[derive(Clone, Copy, Debug, PartialEq, Eq, Structural)]
pub enum StationStatus {
    Online,
    Offline,
    Maintenance,
    Tracking,
    Communicating,
}

/// Commands a ground station can uplink.
#[derive(Clone, Copy, Debug, PartialEq, Eq, Structural)]
pub enum CommandType {
    SystemReboot,
    PayloadActivation,
    OrbitManeuver,
    DataDownload,
    ConfigurationUpdate,
    EmergencyShutdown,
}

/// Emergencies a satellite can report to the ground.
#[derive(Clone, Copy, Debug, PartialEq, Eq, Structural)]
pub enum EmergencyType {
    PowerFailure,
    CommunicationLoss,
    ThermalAnomaly,
    AttitudeControl,
    PayloadFailure,
    CollisionAvoidance,
}

/// Lifecycle of a contact session; owned by the ground-station
/// collaborator, not by the routing engine.
#[derive(Clone, Copy, Debug, PartialEq, Eq, Structural)]
pub enum SessionStatus {
    Establishing,
    Active,
    Degraded,
    Terminating,
    Completed,
    Failed,
}

/// A pluggable message handler for a communication protocol.
pub trait ProtocolHandler {
    /// Processes one inbound message and produces the response bytes.
    fn handle_message(&self, message: &[u8]) -> Result<Vec<u8>, String>;

    /// The name of the protocol this handler speaks.
    fn get_protocol_name(&self) -> &str;
}

/// Handler speaking the ESA-compatible framing: responses carry a
/// protocol header in front of the echoed message.
pub struct ESAProtocolHandler {
    pub protocol_version: String,
}

impl ProtocolHandler for ESAProtocolHandler {
    /// Prefixes the message with `ESA-RESPONSE:` and the configured
    /// protocol version.
    fn handle_message(&self, message: &[u8]) -> Result<Vec<u8>, String> {
        let mut response: Vec<u8> = Vec::new();
        let header: &[u8] = "ESA-RESPONSE:".as_bytes();
        response.extend_from_slice(header);
        let version: &[u8] = self.protocol_version.as_str().as_bytes();
        response.extend_from_slice(version);
        response.extend_from_slice(message);
        Ok(response)
    }

    fn get_protocol_name(&self) -> &str {
        "ESA-CUBESAT"
    }
}

} // verus!
