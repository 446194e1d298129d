//! What the REST API reports about the gateway itself.
use vstd::prelude::*;

use crate::config::WebhookConfig;
use crate::name_map::NameMap;
use crate::pool::{lemma_enumerates_len, BackendPool};
use crate::text::text_eq;
use crate::text::string_views;

verus! {

/// The gateway's health: whether every configured backend is connected,
/// and which are.
#[derive(Debug)]
pub struct HealthResponse {
    pub status: &'static str,
    pub backends_connected: usize,
    pub backends_configured: usize,
    pub connected: Vec<String>,
}

/// The health of the pool: "healthy" when as many backends are connected
/// as are configured, that is when every configured backend is connected;
/// "degraded" otherwise.
pub fn health(pool: &BackendPool) -> (r: HealthResponse)
    requires
        pool.wf(),
    ensures
        string_views(r.connected@) == pool.connection_order(),
        r.backends_connected == r.connected@.len(),
        r.backends_connected == pool.live().len(),
        r.backends_configured == pool.configured().len(),
        r.status@ == (if pool.live().len() == pool.configured().len() {
            "healthy"@
        } else {
            "degraded"@
        }),
        r.status@ == "healthy"@ <==> pool.live().dom() == pool.configured().dom(),
{
    let connected = pool.connected_backends();
    let configured = pool.configured_backends();
    proof {
        lemma_enumerates_len(string_views(connected@), pool.live());
        lemma_enumerates_len(pool.configured_order(), pool.configured());
        reveal_strlit("healthy");
        reveal_strlit("degraded");
        assert("healthy"@.len() != "degraded"@.len());
        if pool.live().len() == pool.configured().len() {
            vstd::set_lib::lemma_subset_equality(pool.live().dom(), pool.configured().dom());
        }
        if pool.live().dom() == pool.configured().dom() {
            assert(pool.live().len() == pool.configured().len());
        }
    }
    let status = if connected.len() == configured.len() {
        "healthy"
    } else {
        "degraded"
    };
    HealthResponse {
        status,
        backends_connected: connected.len(),
        backends_configured: configured.len(),
        connected,
    }
}

/// Where a webhook's body goes as tool arguments.
#[derive(Debug)]
pub enum HookTarget {
    /// The tool of a configured backend.
    Backend { backend: String, tool: String },
    /// The tool named like the hook, on whichever connected backend offers it.
    AnyBackend { tool: String },
}

/// The target of the webhook `hook_name`: the backend and tool that the
/// configuration maps it to, or, for a hook the configuration does not
/// name, the tool named like the hook.
pub fn webhook_target(webhooks: &NameMap<WebhookConfig>, hook_name: &str) -> (r: HookTarget)
    ensures
        webhooks@.contains_key(hook_name@) ==> (r matches HookTarget::Backend { backend, tool }
            && backend@ == webhooks@[hook_name@].backend@ && tool@ == webhooks@[hook_name@].tool@),
        !webhooks@.contains_key(hook_name@) ==> (r matches HookTarget::AnyBackend { tool } && tool@
            == hook_name@),
{
    match webhooks.get(hook_name) {
        Some(w) => HookTarget::Backend { backend: w.backend.clone(), tool: w.tool.clone() },
        None => HookTarget::AnyBackend { tool: String::from_str(hook_name) },
    }
}

/// Whether a request to the REST API may proceed: always when no API key
/// is configured, otherwise only when it presents that key.
pub fn api_key_accepted(api_key: &Option<String>, presented: Option<&str>) -> (r: bool)
    ensures
        r == match api_key {
            None => true,
            Some(k) => presented matches Some(p) && p@ == k@,
        },
{
    match api_key {
        None => true,
        Some(k) => match presented {
            Some(p) => text_eq(k.as_str(), p),
            None => false,
        },
    }
}

} // verus!
