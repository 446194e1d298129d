use mcp_gateway::config::BackendConfig;
use mcp_gateway::error::GatewayError;
use mcp_gateway::name_map::NameMap;
use mcp_gateway::pool::{BackendPool, LiveBackend};
use mcp_gateway::routes::health;
use rmcp::model::Tool;

fn entry(name: &str, description: Option<&str>) -> Tool {
    let mut raw = Tool::default();
    raw.name = name.to_string().into();
    raw.description = description.map(|d| d.to_string().into());
    raw
}

fn http(url: &str) -> BackendConfig {
    BackendConfig::Http { url: url.to_string() }
}

fn pool_of(names: &[&str]) -> BackendPool {
    let mut configs = NameMap::new();
    for n in names {
        configs.insert(n.to_string(), http("http://localhost/mcp"));
    }
    BackendPool::new(configs)
}

#[test]
fn new_pool_has_nothing_connected() {
    let pool = pool_of(&["search", "crm"]);
    assert!(pool.connected_backends().is_empty());
    assert_eq!(pool.configured_backends(), vec!["search".to_string(), "crm".to_string()]);
    assert!(pool.list_all_tools().is_empty());
    assert!(pool.list_all_tools_raw().is_empty());
}

#[test]
fn register_requires_configuration() {
    let mut pool = pool_of(&["search"]);
    let r = pool.register("other".to_string(), LiveBackend { tools: vec![entry("t", None)] });
    match r {
        Err(GatewayError::NoConfig { backend }) => assert_eq!(backend, "other"),
        _ => panic!("an unconfigured backend was registered"),
    }
    assert!(pool.connected_backends().is_empty());
    assert!(pool.register("search".to_string(), LiveBackend { tools: vec![entry("t", None)] }).is_ok());
    assert_eq!(pool.connected_backends(), vec!["search".to_string()]);
}

#[test]
fn call_tool_needs_a_connected_backend() {
    let mut pool = pool_of(&["search", "crm"]);
    pool.register("search".to_string(), LiveBackend { tools: vec![entry("web", None)] }).unwrap();
    let call = pool.call_tool("search", "anything").unwrap();
    assert_eq!(call.backend, "search");
    assert_eq!(call.tool, "anything");
    match pool.call_tool("crm", "web") {
        Err(e) => assert_eq!(e.message(), "backend 'crm' not connected"),
        Ok(_) => panic!("routed to a backend that is not connected"),
    }
}

#[test]
fn call_tool_any_routes_by_tool_name() {
    let mut pool = pool_of(&["search", "crm"]);
    pool.register("search".to_string(), LiveBackend { tools: vec![entry("web", None), entry("news", None)] }).unwrap();
    pool.register("crm".to_string(), LiveBackend { tools: vec![entry("create_contact", None)] }).unwrap();
    let call = pool.call_tool_any("create_contact").unwrap();
    assert_eq!(call.backend, "crm");
    assert_eq!(call.tool, "create_contact");
    assert_eq!(pool.call_tool_any("news").unwrap().backend, "search");
    match pool.call_tool_any("missing") {
        Err(e) => {
            assert_eq!(e.message(), "tool 'missing' not found on any backend");
        }
        Ok(_) => panic!("routed a tool that nobody offers"),
    }
}

#[test]
fn listings() {
    let mut pool = pool_of(&["search", "crm"]);
    pool.register(
        "search".to_string(),
        LiveBackend { tools: vec![entry("web", Some("Search the web")), entry("alpha", None)] },
    )
    .unwrap();
    pool.register("crm".to_string(), LiveBackend { tools: vec![entry("contact", Some("Create"))] }).unwrap();

    let one = pool.list_tools("search").unwrap();
    assert_eq!(one.len(), 2);
    assert_eq!(one[0].backend, "search");
    assert_eq!(one[0].name, "web");
    assert_eq!(one[0].description, "Search the web");
    assert_eq!(one[1].name, "alpha");
    assert_eq!(one[1].description, "");
    match pool.list_tools("other") {
        Err(e) => assert_eq!(e.message(), "backend 'other' not connected"),
        Ok(_) => panic!("listed a backend that is not connected"),
    }

    let all = pool.list_all_tools();
    let names: Vec<&str> = all.iter().map(|t| t.name.as_str()).collect();
    assert_eq!(names, vec!["alpha", "contact", "web"]);
    assert_eq!(all[1].backend, "crm");
    assert_eq!(all[1].description, "Create");

    let raw = pool.list_all_tools_raw();
    assert_eq!(raw.len(), 3);
    let mut raw_names: Vec<String> = raw.iter().map(|t| t.name.to_string()).collect();
    raw_names.sort();
    assert_eq!(raw_names, vec!["alpha", "contact", "web"]);
}

#[test]
fn reconnect_drops_the_connection() {
    let mut pool = pool_of(&["search"]);
    pool.register("search".to_string(), LiveBackend { tools: vec![entry("web", None)] }).unwrap();
    assert!(pool.reconnect("search").is_ok());
    assert!(pool.connected_backends().is_empty());
    assert!(pool.call_tool_any("web").is_err());
    match pool.reconnect("unknown") {
        Err(e) => assert_eq!(e.message(), "no config for backend 'unknown'"),
        Ok(_) => panic!("reconnected a backend that is not configured"),
    }
}

#[test]
fn health_reports_connected_backends() {
    let mut pool = pool_of(&["search", "crm"]);
    let h = health(&pool);
    assert_eq!(h.status, "degraded");
    assert_eq!(h.backends_connected, 0);
    assert_eq!(h.backends_configured, 2);
    pool.register("search".to_string(), LiveBackend { tools: vec![] }).unwrap();
    pool.register("crm".to_string(), LiveBackend { tools: vec![] }).unwrap();
    let h = health(&pool);
    assert_eq!(h.status, "healthy");
    assert_eq!(h.backends_connected, 2);
    let mut c = h.connected.clone();
    c.sort();
    assert_eq!(c, vec!["crm".to_string(), "search".to_string()]);
}

#[test]
fn last_connected_backend_wins_a_shared_tool_name() {
    let mut pool = pool_of(&["a", "b"]);
    pool.register("a".to_string(), LiveBackend { tools: vec![entry("search", Some("from a"))] }).unwrap();
    pool.register("b".to_string(), LiveBackend { tools: vec![entry("search", Some("from b"))] }).unwrap();
    assert_eq!(pool.call_tool_any("search").unwrap().backend, "b");
    // a connects again and becomes the most recent
    pool.register("a".to_string(), LiveBackend { tools: vec![entry("search", None)] }).unwrap();
    assert_eq!(pool.call_tool_any("search").unwrap().backend, "a");
    assert_eq!(pool.connected_backends(), vec!["b".to_string(), "a".to_string()]);
    // both copies are listed
    let all = pool.list_all_tools();
    assert_eq!(all.len(), 2);
    assert!(all.iter().all(|t| t.name == "search"));
}

#[test]
fn raw_listing_follows_connection_order() {
    let mut pool = pool_of(&["a", "b"]);
    pool.register("b".to_string(), LiveBackend { tools: vec![entry("z", None), entry("y", None)] }).unwrap();
    pool.register("a".to_string(), LiveBackend { tools: vec![entry("x", None)] }).unwrap();
    let names: Vec<String> = pool.list_all_tools_raw().iter().map(|t| t.name.to_string()).collect();
    assert_eq!(names, vec!["z", "y", "x"]);
    assert_eq!(pool.connected_backends(), vec!["b".to_string(), "a".to_string()]);
}

#[test]
fn full_listing_filtered_by_backend_is_that_backends_listing() {
    let mut pool = pool_of(&["a", "b"]);
    pool.register("a".to_string(), LiveBackend { tools: vec![entry("z", None), entry("m", Some("d"))] }).unwrap();
    pool.register("b".to_string(), LiveBackend { tools: vec![entry("m", None)] }).unwrap();
    let all = pool.list_all_tools();
    for backend in ["a", "b"] {
        let mut from_all: Vec<(String, String)> = all
            .iter()
            .filter(|t| t.backend == backend)
            .map(|t| (t.name.clone(), t.description.clone()))
            .collect();
        let mut own: Vec<(String, String)> = pool
            .list_tools(backend)
            .unwrap()
            .into_iter()
            .map(|t| (t.name, t.description))
            .collect();
        from_all.sort();
        own.sort();
        assert_eq!(from_all, own);
    }
    // ties on a name keep connection order: a connected first
    let m: Vec<&str> = all.iter().filter(|t| t.name == "m").map(|t| t.backend.as_str()).collect();
    assert_eq!(m, vec!["a", "b"]);
}

#[test]
fn summaries_and_definitions_name_the_same_tools() {
    let mut pool = pool_of(&["a", "b"]);
    pool.register("a".to_string(), LiveBackend { tools: vec![entry("z", None), entry("m", None)] }).unwrap();
    pool.register("b".to_string(), LiveBackend { tools: vec![entry("m", None)] }).unwrap();
    let mut names: Vec<String> = pool.list_all_tools().into_iter().map(|t| t.name).collect();
    let mut raw: Vec<String> = pool.list_all_tools_raw().iter().map(|t| t.name.to_string()).collect();
    names.sort();
    raw.sort();
    assert_eq!(names, raw);
}

#[test]
fn configuration_does_not_change() {
    let mut pool = pool_of(&["a", "b"]);
    let before = pool.configured_backends();
    pool.register("a".to_string(), LiveBackend { tools: vec![] }).unwrap();
    let _ = pool.register("zzz".to_string(), LiveBackend { tools: vec![] });
    let _ = pool.reconnect("a");
    let _ = pool.reconnect("zzz");
    assert_eq!(pool.configured_backends(), before);
}
