//! Configuration records consumed at setup, with the defaults a fresh
//! deployment starts from.

use vstd::prelude::*;

verus! {

/// Network-layer tunables.
#[derive(Clone, Copy, Debug, PartialEq, Eq, Structural)]
pub struct NetworkConfig {
    pub max_hops: u8,
    pub routing_update_interval_ms: u64,
    pub connection_timeout_ms: u64,
    pub retry_attempts: u32,
    pub retry_backoff_ms: u64,
    pub mesh_discovery_interval_ms: u64,
    pub ground_station_priority: u8,
}

impl Default for NetworkConfig {
    /// The stock network tuning.
    fn default() -> (c: NetworkConfig)
        ensures
            c == (NetworkConfig {
                max_hops: 5,
                routing_update_interval_ms: 30000,
                connection_timeout_ms: 5000,
                retry_attempts: 3,
                retry_backoff_ms: 1000,
                mesh_discovery_interval_ms: 60000,
                ground_station_priority: 10,
            }),
    {
        NetworkConfig {
            max_hops: 5,
            routing_update_interval_ms: 30000,
            connection_timeout_ms: 5000,
            retry_attempts: 3,
            retry_backoff_ms: 1000,
            mesh_discovery_interval_ms: 60000,
            ground_station_priority: 10,
        }
    }
}

/// Security-layer tunables.
#[derive(Clone, Copy, Debug, PartialEq, Eq, Structural)]
pub struct SecurityConfig {
    pub encryption_enabled: bool,
    pub key_rotation_interval_hours: u64,
    pub max_auth_failures: u32,
    pub auth_timeout_ms: u64,
    pub emergency_bypass_enabled: bool,
}

impl Default for SecurityConfig {
    /// The stock security tuning.
    fn default() -> (c: SecurityConfig)
        ensures
            c == (SecurityConfig {
                encryption_enabled: true,
                key_rotation_interval_hours: 24,
                max_auth_failures: 3,
                auth_timeout_ms: 10000,
                emergency_bypass_enabled: false,
            }),
    {
        SecurityConfig {
            encryption_enabled: true,
            key_rotation_interval_hours: 24,
            max_auth_failures: 3,
            auth_timeout_ms: 10000,
            emergency_bypass_enabled: false,
        }
    }
}

/// Logging setup handed to the logging collaborator.
#[derive(Clone, Debug)]
pub struct LoggingConfig {
    pub level: String,
    pub file_enabled: bool,
    pub console_enabled: bool,
    pub max_file_size_mb: u64,
    pub max_files: u32,
}

impl Default for LoggingConfig {
    /// The stock logging setup.
    fn default() -> (c: LoggingConfig)
        ensures
            c.level@ == "info"@,
            c.file_enabled,
            c.console_enabled,
            c.max_file_size_mb == 10,
            c.max_files == 5,
    {
        LoggingConfig {
            level: "info".to_owned(),
            file_enabled: true,
            console_enabled: true,
            max_file_size_mb: 10,
            max_files: 5,
        }
    }
}

/// What can go wrong while loading or checking a configuration.
#[derive(Clone, Debug, PartialEq, Eq)]
pub enum ConfigError {
    FileRead(String),
    FileWrite(String),
    ParseError(String),
    SerializeError(String),
    ValidationError(String),
}

impl ConfigError {
    /// The text carried by the error.
    pub fn detail(&self) -> (d: &str)
        ensures
            self matches ConfigError::FileRead(s) ==> d@ == s@,
            self matches ConfigError::FileWrite(s) ==> d@ == s@,
            self matches ConfigError::ParseError(s) ==> d@ == s@,
            self matches ConfigError::SerializeError(s) ==> d@ == s@,
            self matches ConfigError::ValidationError(s) ==> d@ == s@,
    {
        match self {
            ConfigError::FileRead(s) => s.as_str(),
            ConfigError::FileWrite(s) => s.as_str(),
            ConfigError::ParseError(s) => s.as_str(),
            ConfigError::SerializeError(s) => s.as_str(),
            ConfigError::ValidationError(s) => s.as_str(),
        }
    }
}

} // verus!
