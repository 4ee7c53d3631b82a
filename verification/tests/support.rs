//! Tests of the collaborator vocabulary: protocol handler, telemetry
//! categories, configuration defaults, and frame codes.

use rustsat::config::{LoggingConfig, NetworkConfig, SecurityConfig};
use rustsat::cubesat::FrameType;
use rustsat::metrics::PerformanceTimer;
use rustsat::station::{ESAProtocolHandler, ProtocolHandler};
use rustsat::telemetry::TelemetryType;

#[test]
fn test_esa_protocol_handler() {
    let handler = ESAProtocolHandler {
        protocol_version: "ESA-CUBESAT-1.0".to_string(),
    };

    let test_message = b"Hello ESA";
    let response = handler.handle_message(test_message).unwrap();

    assert!(response.len() > test_message.len());
    assert_eq!(handler.get_protocol_name(), "ESA-CUBESAT");
}

#[test]
fn esa_response_carries_header_version_and_message() {
    let handler = ESAProtocolHandler {
        protocol_version: "v2".to_string(),
    };
    let response = handler.handle_message(b"ping").unwrap();
    assert_eq!(response, b"ESA-RESPONSE:v2ping".to_vec());
}

#[test]
fn telemetry_kind_names() {
    assert_eq!(TelemetryType::SystemHealth.kind_name(), "SystemHealth");
    assert_eq!(TelemetryType::Attitude.kind_name(), "Attitude");
    assert_eq!(
        TelemetryType::Custom("magnetometer".to_string()).kind_name(),
        "magnetometer"
    );
}

#[test]
fn network_config_defaults() {
    let c = NetworkConfig::default();
    assert_eq!(c.max_hops, 5);
    assert_eq!(c.routing_update_interval_ms, 30000);
    assert_eq!(c.retry_attempts, 3);
    assert_eq!(c.ground_station_priority, 10);
}

#[test]
fn security_config_defaults() {
    let c = SecurityConfig::default();
    assert!(c.encryption_enabled);
    assert_eq!(c.key_rotation_interval_hours, 24);
    assert!(!c.emergency_bypass_enabled);
}

#[test]
fn logging_config_defaults() {
    let c = LoggingConfig::default();
    assert_eq!(c.level, "info");
    assert_eq!(c.max_file_size_mb, 10);
    assert_eq!(c.max_files, 5);
}

#[test]
fn frame_codes_are_distinct() {
    let kinds = [
        FrameType::Telemetry,
        FrameType::Command,
        FrameType::Acknowledgment,
        FrameType::Emergency,
        FrameType::Beacon,
        FrameType::FileTransfer,
        FrameType::TimeSync,
    ];
    let mut seen = Vec::new();
    for k in kinds {
        let code = k.code();
        assert!((1..=7).contains(&code));
        assert!(!seen.contains(&code));
        seen.push(code);
    }
    assert_eq!(FrameType::Telemetry.code(), 1);
}

#[test]
fn performance_timer_keeps_its_name() {
    let timer = PerformanceTimer::new("startup");
    assert_eq!(timer.name, "startup");
}
