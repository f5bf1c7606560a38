//! Startup configuration and the rule that resolves it from the command line
//! and the environment: a listening address or a port must be given (the
//! address takes precedence when both are), and the filtering-service
//! credential must be present.
use vstd::prelude::*;

verus! {

/// The resolved startup configuration.
#[derive(Debug)]
pub struct Config {
    pub webserver_address: Option<String>,
    pub webserver_port: Option<u32>,
    pub openai_key: String,
}

/// Why startup configuration could not be resolved.
#[derive(Debug, PartialEq, Eq, Structural, Clone, Copy)]
pub enum ConfigError {
    /// Neither a listening address nor a port was given.
    MissingListenTarget,
    /// The filtering-service credential was not given.
    MissingCredential,
}

/// Resolves the startup configuration from what the command line and the
/// environment offered. Fails exactly when no listen target was given, or —
/// with a listen target present — when the credential is missing.
pub fn resolve_config(address: Option<String>, port: Option<u32>, key: Option<String>) -> (r:
    Result<Config, ConfigError>)
    ensures
        address is None && port is None <==> r == Err::<Config, ConfigError>(
            ConfigError::MissingListenTarget,
        ),
        (address is Some || port is Some) && key is None <==> r == Err::<Config, ConfigError>(
            ConfigError::MissingCredential,
        ),
        r is Ok ==> {
            &&& (address is Some || port is Some)
            &&& key is Some
            &&& r->Ok_0.webserver_address == address
            &&& r->Ok_0.webserver_port == port
            &&& r->Ok_0.openai_key == key->Some_0
        },
{
    if address.is_none() && port.is_none() {
        return Err(ConfigError::MissingListenTarget);
    }
    match key {
        None => Err(ConfigError::MissingCredential),
        Some(k) => Ok(Config { webserver_address: address, webserver_port: port, openai_key: k }),
    }
}

} // verus!
