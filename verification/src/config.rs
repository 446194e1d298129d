//! Gateway configuration: the HTTP server settings, the MCP backends to
//! connect to and the webhook routes, with the documented defaults.
use vstd::prelude::*;

use crate::name_map::NameMap;

verus! {

/// Top-level gateway configuration.
#[derive(Debug)]
pub struct GatewayConfig {
    /// HTTP server settings.
    pub server: ServerConfig,
    /// MCP backend servers to connect to, by name.
    pub backends: NameMap<BackendConfig>,
    /// Webhook route mappings, by hook name.
    pub webhooks: NameMap<WebhookConfig>,
}

/// Settings of the gateway's HTTP server.
#[derive(Debug)]
pub struct ServerConfig {
    /// Listen address (default: 0.0.0.0).
    pub host: String,
    /// Listen port (default: 8080).
    pub port: u16,
    /// Request timeout in seconds (default: 30).
    pub timeout_secs: u64,
    /// Optional API key for auth (header: X-API-Key).
    pub api_key: Option<String>,
}

/// How the gateway reaches one MCP backend.
#[derive(Debug, Clone)]
pub enum BackendConfig {
    /// Spawn the server as a child process and talk over stdio.
    Stdio {
        /// Command to run.
        command: String,
        /// Arguments.
        args: Vec<String>,
        /// Working directory.
        cwd: Option<String>,
        /// Environment variables.
        env: NameMap<String>,
    },
    /// Connect to a running server over Streamable HTTP.
    Http {
        /// URL of the remote MCP server.
        url: String,
    },
}

/// Maps an incoming webhook path to a tool call.
#[derive(Debug)]
pub struct WebhookConfig {
    /// Which backend to route to.
    pub backend: String,
    /// Tool to call.
    pub tool: String,
    /// Mapping from webhook body fields to tool arguments.
    pub arg_map: NameMap<String>,
}

/// The listen address used when none is configured.
pub fn default_host() -> (r: String)
    ensures
        r@ == "0.0.0.0"@,
{
    String::from_str("0.0.0.0")
}

/// The listen port used when none is configured.
pub fn default_port() -> (r: u16)
    ensures
        r == 8080,
{
    8080
}

/// The request timeout, in seconds, used when none is configured.
pub fn default_timeout() -> (r: u64)
    ensures
        r == 30,
{
    30
}

impl Default for ServerConfig {
    /// Server settings with every field at its default and no API key.
    fn default() -> (r: Self)
        ensures
            r.host@ == "0.0.0.0"@,
            r.port == 8080,
            r.timeout_secs == 30,
            r.api_key is None,
    {
        ServerConfig {
            host: default_host(),
            port: default_port(),
            timeout_secs: default_timeout(),
            api_key: None,
        }
    }
}

} // verus!
