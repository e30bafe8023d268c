//! The program's configuration: exactly one of a client or a server section,
//! plus the TLS material.
//!
//! Reading the configuration file and parsing its structured document happen
//! outside this crate; this module holds the typed configuration and the
//! rule that picks the mode from the sections found in the document.

use vstd::prelude::*;

verus! {

/// The client section: where to reach the server.
pub struct ClientConfig {
    /// Host name or address of the server.
    pub address: String,
    /// TCP port of the server.
    pub port: u16,
}

/// The server section: where to listen and which subnet to manage.
pub struct ServerConfig {
    /// TCP port to listen on.
    pub port: u16,
    /// The server's virtual address, the gateway of the subnet.
    pub virtual_address: u32,
    /// The netmask of the subnet.
    pub subnet_mask: u32,
}

/// Which side of the tunnel this process runs.
pub enum Mode {
    /// Connect out to a server.
    Client(ClientConfig),
    /// Accept clients.
    Server(ServerConfig),
}

/// The TLS material, PEM-encoded as it stands in the configuration file.
pub struct TlsConfig {
    /// The root certificate both sides verify against.
    pub root_certificate: String,
    /// This side's certificate.
    pub certificate: String,
    /// This side's private key.
    pub key: String,
}

/// The whole configuration.
pub struct Config {
    /// Which side to run, with its settings.
    pub mode: Mode,
    /// The TLS material.
    pub tls: TlsConfig,
}

/// Errors of reading the configuration.
#[derive(Clone, Copy, Debug, PartialEq, Eq, Structural)]
pub enum ConfigError {
    /// The file holds both a client and a server section.
    BothSections,
    /// The file holds neither a client nor a server section.
    NoSection,
}

/// Picks the mode from the sections found in the configuration file: exactly
/// one of the client and server sections must be present.
pub fn read_config(client: Option<ClientConfig>, server: Option<ServerConfig>, tls: TlsConfig) -> (r:
    Result<Config, ConfigError>)
    ensures
        client is Some && server is Some ==> r == Err::<Config, ConfigError>(
            ConfigError::BothSections,
        ),
        client is None && server is None ==> r == Err::<Config, ConfigError>(
            ConfigError::NoSection,
        ),
        client is Some && server is None ==> r is Ok && r->Ok_0.mode == Mode::Client(client->0)
            && r->Ok_0.tls == tls,
        client is None && server is Some ==> r is Ok && r->Ok_0.mode == Mode::Server(server->0)
            && r->Ok_0.tls == tls,
{
    match (client, server) {
        (Some(_), Some(_)) => Err(ConfigError::BothSections),
        (None, None) => Err(ConfigError::NoSection),
        (Some(c), None) => Ok(Config { mode: Mode::Client(c), tls }),
        (None, Some(s)) => Ok(Config { mode: Mode::Server(s), tls }),
    }
}

} // verus!
