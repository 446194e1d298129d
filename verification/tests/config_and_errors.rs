use mcp_gateway::config::{default_host, default_port, default_timeout, ServerConfig, WebhookConfig};
use mcp_gateway::name_map::NameMap;
use mcp_gateway::routes::{api_key_accepted, webhook_target, HookTarget};
use mcp_gateway::error::{AppError, GatewayError};

#[test]
fn defaults_are_documented_values() {
    assert_eq!(default_host(), "0.0.0.0");
    assert_eq!(default_port(), 8080);
    assert_eq!(default_timeout(), 30);
    let s = ServerConfig::default();
    assert_eq!(s.host, "0.0.0.0");
    assert_eq!(s.port, 8080);
    assert_eq!(s.timeout_secs, 30);
    assert!(s.api_key.is_none());
}

fn s(x: &str) -> String {
    x.to_string()
}

#[test]
fn error_messages() {
    assert_eq!(GatewayError::BackendNotConnected { backend: s("crm") }.message(), "backend 'crm' not connected");
    assert_eq!(GatewayError::ToolNotFound { tool: s("search") }.message(), "tool 'search' not found on any backend");
    assert_eq!(GatewayError::NoConfig { backend: s("crm") }.message(), "no config for backend 'crm'");
    assert_eq!(GatewayError::StdioConnect { backend: s("crm"), cause: s("connection closed") }.message(), "stdio connect to 'crm'");
    assert_eq!(
        GatewayError::HttpConnect { backend: s("api"), url: s("http://10.0.0.5:8080/mcp"), cause: s("refused") }.message(),
        "http connect to 'api' at http://10.0.0.5:8080/mcp"
    );
    assert_eq!(GatewayError::ListTools { backend: s("crm"), cause: s("timeout") }.message(), "list tools from 'crm'");
    assert_eq!(
        GatewayError::CallTool { tool: s("record_payment"), backend: s("crm"), cause: s("boom") }.message(),
        "call_tool 'record_payment' on 'crm'"
    );
    assert_eq!(GatewayError::Transport { message: s("No such file or directory") }.message(), "No such file or directory");
}

#[test]
fn proxy_reply_text() {
    assert_eq!(
        GatewayError::ToolNotFound { tool: s("x") }.reply_text(),
        "Error: tool 'x' not found on any backend"
    );
}

#[test]
fn status_codes() {
    let e = AppError::from_gateway(&GatewayError::BackendNotConnected { backend: s("crm") });
    assert_eq!(e.message(), "backend 'crm' not connected");
    assert_eq!(e.status_code(), 404);
    assert_eq!(AppError::from_gateway(&GatewayError::ToolNotFound { tool: s("t") }).status_code(), 404);
    assert_eq!(AppError::from_gateway(&GatewayError::NoConfig { backend: s("crm") }).status_code(), 500);
    assert_eq!(AppError::from_gateway(&GatewayError::CallTool { tool: s("t"), backend: s("b"), cause: s("not found") }).status_code(), 500);
    // the status goes by the message, names included
    assert_eq!(AppError::from_gateway(&GatewayError::NoConfig { backend: s("not found") }).status_code(), 404);
    assert_eq!(AppError::new(s("")).status_code(), 500);
}

#[test]
fn causes_are_kept() {
    let e = GatewayError::CallTool { tool: s("t"), backend: s("b"), cause: s("broken pipe") };
    assert_eq!(e.cause(), Some(&s("broken pipe")));
    assert_eq!(e.message(), "call_tool 't' on 'b'");
    let a = AppError::from_gateway(&e);
    assert_eq!(a.cause(), Some(&s("broken pipe")));
    assert_eq!(GatewayError::ToolNotFound { tool: s("t") }.cause(), None);
    assert_eq!(AppError::new(s("x")).cause(), None);
    let h = GatewayError::HttpConnect { backend: s("a"), url: s("u"), cause: s("refused") };
    assert_eq!(h.cause(), Some(&s("refused")));
}

#[test]
fn webhook_routes_and_api_key() {
    let mut hooks = NameMap::new();
    hooks.insert(
        s("stripe_payment"),
        WebhookConfig { backend: s("billing"), tool: s("handle_payment"), arg_map: NameMap::new() },
    );
    match webhook_target(&hooks, "stripe_payment") {
        HookTarget::Backend { backend, tool } => {
            assert_eq!(backend, "billing");
            assert_eq!(tool, "handle_payment");
        }
        HookTarget::AnyBackend { .. } => panic!("configured hook not routed to its backend"),
    }
    match webhook_target(&hooks, "search") {
        HookTarget::AnyBackend { tool } => assert_eq!(tool, "search"),
        HookTarget::Backend { .. } => panic!("unconfigured hook routed to a backend"),
    }
    assert!(api_key_accepted(&None, None));
    assert!(api_key_accepted(&None, Some("anything")));
    assert!(api_key_accepted(&Some(s("secret")), Some("secret")));
    assert!(!api_key_accepted(&Some(s("secret")), Some("Secret")));
    assert!(!api_key_accepted(&Some(s("secret")), None));
}
