//! Configuration of the application.

use vstd::prelude::*;

verus! {

/// API server section.
#[derive(Debug)]
pub struct ApiConfig {
    /// Interface to bind the API server to (e.g., "127.0.0.1").
    pub host: String,
    /// TCP port for the API server (e.g., 8080).
    pub port: u16,
}

impl Default for ApiConfig {
    fn default() -> (res: Self)
        ensures
            res.host@ == "127.0.0.1"@,
            res.port == 8080,
    {
        ApiConfig { host: "127.0.0.1".to_string(), port: 8080 }
    }
}

impl Clone for ApiConfig {
    fn clone(&self) -> (res: Self)
        ensures
            res == *self,
    {
        ApiConfig { host: self.host.clone(), port: self.port }
    }
}

/// Log output format for the application logger.
///
/// - COMPACT: human-readable, single-line logs suited for local development.
/// - JSON: structured JSON logs suitable for log aggregation systems.
#[derive(Debug, Clone, Copy, PartialEq, Eq, Structural)]
pub enum LogFormat {
    /// Human-readable, single-line compact format.
    COMPACT,
    /// Structured JSON format for machine processing.
    JSON,
}

/// Logging verbosity level.
///
/// Use higher levels (ERROR/WARN) in production to reduce noise, and lower
/// levels (INFO/DEBUG/TRACE) during development or troubleshooting.
#[derive(Debug, Clone, Copy, PartialEq, Eq, Structural)]
pub enum LogLevel {
    /// Extremely verbose, includes fine-grained diagnostic events.
    TRACE,
    /// Verbose information helpful during debugging.
    DEBUG,
    /// General operational information about application progress.
    INFO,
    /// Potentially harmful situations that warrant attention.
    WARN,
    /// Error events that might still allow the application to continue.
    ERROR,
}

/// Logger configuration section.
///
/// Controls how logs are formatted and the minimum severity captured.
/// Can be provided via config file or environment variables.
#[derive(Debug, Clone, Copy, PartialEq, Eq, Structural)]
pub struct LogConfig {
    /// Minimum severity to record (e.g., INFO, DEBUG). Higher severity means fewer logs.
    pub level: LogLevel,
    /// Output format for emitted logs (compact or JSON).
    pub format: LogFormat,
}

impl Default for LogConfig {
    fn default() -> (res: Self)
        ensures
            res == (LogConfig { level: LogLevel::TRACE, format: LogFormat::COMPACT }),
    {
        LogConfig { level: LogLevel::TRACE, format: LogFormat::COMPACT }
    }
}

/// Top-level application configuration wrapper.
///
/// This struct groups all configuration sections used by the application.
/// Loaded with the following precedence (lowest to highest):
/// 1) Built-in defaults
/// 2) Optional config file (if present)
/// 3) Environment variables
#[derive(Debug)]
pub struct AppConfig {
    pub api: ApiConfig,
    pub logger: LogConfig,
}

impl Clone for AppConfig {
    fn clone(&self) -> (res: Self)
        ensures
            res == *self,
    {
        AppConfig { api: self.api.clone(), logger: self.logger }
    }
}

impl Default for AppConfig {
    fn default() -> (res: Self)
        ensures
            res.api.host@ == "127.0.0.1"@,
            res.api.port == 8080,
            res.logger == (LogConfig { level: LogLevel::TRACE, format: LogFormat::COMPACT }),
    {
        AppConfig { api: ApiConfig::default(), logger: LogConfig::default() }
    }
}

} // verus!
