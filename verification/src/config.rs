//! The configuration model, loaded once at startup.
//!
//! The values live here as plain data; reading the configuration file,
//! decoding it and resolving the secret files happen outside the library,
//! which then receives these structures.

use vstd::prelude::*;
use vstd::string::StringExecFns;

verus! {

/// Connection parameters of the broker; absent when publishing is disabled.
pub struct MqttConfig {
    pub hostname: String,
    pub port: u16,
    pub username: String,
    pub password_file: String,
}

/// Connection parameters of the authenticated channel to the access point.
pub struct SshConfig {
    pub address: String,
    pub pubkey_file: String,
    pub key_file: String,
}

/// Where the metrics endpoint listens and which interfaces are polled; an
/// empty interface list means the default interface.
pub struct ExporterConfig {
    pub address: String,
    pub port: u16,
    pub interfaces: Vec<String>,
}

/// The whole configuration.
pub struct Config {
    pub mqtt: Option<MqttConfig>,
    pub ssh: SshConfig,
    pub exporter: ExporterConfig,
}

/// The broker port assumed when the configuration names none.
pub fn default_mqtt_port() -> (p: u16)
    ensures
        p == 1883,
{
    1883
}

/// The exporter address assumed when the configuration names none:
/// loopback.
pub fn default_address() -> (a: String)
    ensures
        a@ == "127.0.0.1"@,
{
    String::from_str("127.0.0.1")
}

} // verus!
