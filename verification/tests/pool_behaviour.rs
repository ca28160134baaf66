//! Behaviour of the pool on concrete values: selection, failover, error
//! classification, routing decisions and text helpers.

use ai_api_pool::config::{env_reference, resolve_setting, ModelConfig, ProviderConfig, ServerConfig};
use ai_api_pool::health_check::{create_health_checker, statuses_of, HealthChecker, ProviderStatus};
use ai_api_pool::load_balancer::{
    availability_after, forward_result, is_quota_error, is_quota_text_exec, round_robin_select,
    ForwardError, LoadBalancer,
};
use ai_api_pool::providers::{
    create_provider, upstream_model_name, ChatResponse, ErrorDetail, ErrorResponse, Provider,
    ProviderPool,
};
use ai_api_pool::server::{
    build_pool, build_state, forwards_header, proxy_url, AppError, ModelTable,
    HEALTH_CHECK_INTERVAL_SECS,
};
use ai_api_pool::text::{contains_str, join_str, push_decimal, str_eq};

fn config(name: &str, enabled: bool) -> ProviderConfig {
    ProviderConfig {
        name: name.to_string(),
        api_base: format!("https://{}.example.com/v1", name),
        api_key: format!("{}-key", name),
        enabled,
    }
}

fn pool_of(entries: &[(&str, bool)]) -> (ProviderPool, Vec<usize>) {
    let mut pool = ProviderPool::new();
    let ids = entries.iter().map(|(n, e)| create_provider(&mut pool, config(n, *e))).collect();
    (pool, ids)
}

fn empty_response() -> ChatResponse {
    ChatResponse { id: Some("id-1".to_string()), object: None, created: Some(7), model: None, choices: None, usage: None }
}

fn model(name: &str, providers: Vec<ProviderConfig>) -> (String, ModelConfig) {
    (name.to_string(), ModelConfig { model_name: name.to_string(), providers })
}

#[test]
fn round_robin_select_exact_values() {
    assert_eq!(round_robin_select(&vec![true, true, true], 0), (Some(0), 1));
    assert_eq!(round_robin_select(&vec![true, true, true], 2), (Some(2), 0));
    assert_eq!(round_robin_select(&vec![false, true, false], 2), (Some(1), 2));
    assert_eq!(round_robin_select(&vec![true, false, false], 1), (Some(0), 1));
    assert_eq!(round_robin_select(&vec![false, false], 1), (None, 1));
    assert_eq!(round_robin_select(&vec![], 0), (None, 0));
}

#[test]
fn pool_positions_and_marks() {
    let mut pool = ProviderPool::new();
    assert_eq!(create_provider(&mut pool, config("a", true)), 0);
    assert_eq!(create_provider(&mut pool, config("b", false)), 1);
    assert_eq!(pool.len(), 2);
    assert!(pool.is_available(0));
    assert!(!pool.is_available(1));
    assert!(!pool.is_available(7));
    pool.set_available(0, false);
    assert!(!pool.is_available(0));
    pool.set_available(9, false);
    assert_eq!(pool.len(), 2);
    pool.set_available(0, true);
    assert!(pool.is_available(0));
    assert_eq!(pool.provider(1).name(), "b");
}

#[test]
fn all_available_providers_rotate_in_order() {
    let (pool, ids) = pool_of(&[("a", true), ("b", true), ("c", true)]);
    let mut lb = LoadBalancer::new(ids);
    let picked: Vec<usize> = (0..6).map(|_| lb.get_available_provider(&pool).unwrap()).collect();
    assert_eq!(picked, vec![0, 1, 2, 0, 1, 2]);
}

#[test]
fn unavailable_providers_are_skipped_and_others_still_served() {
    let (pool, ids) = pool_of(&[("a", true), ("b", false), ("c", true)]);
    let mut lb = LoadBalancer::new(ids);
    let picked: Vec<usize> = (0..4).map(|_| lb.get_available_provider(&pool).unwrap()).collect();
    assert_eq!(picked, vec![0, 2, 0, 2]);
}

#[test]
fn balancer_over_part_of_the_pool() {
    let (pool, _) = pool_of(&[("a", true), ("b", true), ("c", true)]);
    let mut lb = LoadBalancer::new(vec![2, 0, 5]);
    let picked: Vec<usize> = (0..4).map(|_| lb.get_available_provider(&pool).unwrap()).collect();
    assert_eq!(picked, vec![2, 0, 2, 0]);
}

#[test]
fn select_from_availability_follows_the_given_marks() {
    let mut lb = LoadBalancer::new(vec![10, 11]);
    assert_eq!(lb.select_from_availability(&vec![false, true]), Some(11));
    assert_eq!(lb.select_from_availability(&vec![true, true]), Some(10));
    assert!(lb.select_from_availability(&vec![false, false]).is_none());
}

#[test]
fn empty_load_balancer_selects_nothing() {
    let pool = ProviderPool::new();
    let mut lb = LoadBalancer::new(vec![]);
    assert!(lb.get_available_provider(&pool).is_none());
    assert_eq!(lb.providers_count(), 0);
    match lb.begin_forward(&pool) {
        Err(ForwardError::NoAvailableProviders) => {}
        _ => panic!("expected no provider"),
    }
}

#[test]
fn mark_unavailable_touches_only_the_named_provider() {
    let (mut pool, ids) = pool_of(&[("a", true), ("b", true), ("a", true)]);
    let mut lb = LoadBalancer::new(vec![ids[0], ids[1]]);
    lb.mark_provider_unavailable(&mut pool, "a");
    assert!(!pool.is_available(0));
    assert!(pool.is_available(1));
    // Position 2 also bears the name but is not one of this balancer's providers.
    assert!(pool.is_available(2));
    for _ in 0..3 {
        assert_eq!(lb.get_available_provider(&pool), Some(1));
    }
    lb.mark_provider_unavailable(&mut pool, "nobody");
    assert_eq!(lb.get_available_provider(&pool), Some(1));
}

#[test]
fn quota_messages_are_recognised_in_any_case() {
    assert!(is_quota_error("Insufficient Balance on account"));
    assert!(is_quota_error("You exceeded your current QUOTA"));
    assert!(is_quota_error("HTTP 429 Too Many Requests"));
    assert!(is_quota_error("Not Enough credits"));
    assert!(is_quota_error("billing hard limit reached"));
    assert!(!is_quota_error("connection reset by peer"));
    assert!(!is_quota_error(""));
    assert!(is_quota_text_exec("quota"));
    assert!(!is_quota_text_exec("QUOTA"));
}

#[test]
fn availability_after_each_outcome() {
    assert_eq!(availability_after(&Ok(empty_response())), Some(true));
    assert_eq!(availability_after(&Err("API error: insufficient_quota".to_string())), Some(false));
    assert_eq!(availability_after(&Err("API error: model overloaded".to_string())), None);
}

#[test]
fn forward_result_of_each_outcome() {
    match forward_result(Ok(empty_response())) {
        Ok(r) => assert_eq!(r.created, Some(7)),
        Err(_) => panic!("expected the response"),
    }
    match forward_result(Err("Balance too low".to_string())) {
        Err(e) => assert_eq!(e.message(), "Provider quota exceeded"),
        Ok(_) => panic!("expected an error"),
    }
    match forward_result(Err("API error: bad request".to_string())) {
        Err(e) => assert_eq!(e.message(), "API error: bad request"),
        Ok(_) => panic!("expected an error"),
    }
    assert_eq!(ForwardError::NoAvailableProviders.message(), "No available providers");
}

#[test]
fn settle_chat_result_updates_the_provider() {
    let (mut pool, ids) = pool_of(&[("a", true), ("b", true)]);
    let p = ids[0];
    let r = LoadBalancer::settle_chat_result(&mut pool, p, Err("quota exceeded".to_string()));
    assert!(r.is_err());
    assert!(!pool.is_available(p));
    assert!(pool.is_available(1));
    let r = LoadBalancer::settle_chat_result(&mut pool, p, Err("timeout".to_string()));
    assert!(r.is_err());
    assert!(!pool.is_available(p));
    let r = LoadBalancer::settle_chat_result(&mut pool, p, Ok(empty_response()));
    assert!(r.is_ok());
    assert!(pool.is_available(p));
}

#[test]
fn quota_failure_takes_provider_out_of_rotation() {
    let (mut pool, ids) = pool_of(&[("a", true), ("b", true)]);
    let mut lb = LoadBalancer::new(ids);
    let first = lb.begin_forward(&pool).ok().unwrap();
    assert_eq!(first, 0);
    let _ = LoadBalancer::settle_chat_result(&mut pool, first, Err("429".to_string()));
    for _ in 0..3 {
        assert_eq!(lb.begin_forward(&pool).ok().unwrap(), 1);
    }
}

#[test]
fn provider_urls_and_headers() {
    let p = Provider::new(config("x", true));
    assert_eq!(p.chat_url(), "https://x.example.com/v1/chat/completions");
    assert_eq!(p.models_url(), "https://x.example.com/v1/models");
    assert_eq!(p.authorization(), "Bearer x-key");
    assert_eq!(proxy_url(&p, "embeddings"), "https://x.example.com/v1/embeddings");
    let mut q = Provider::new(config("y", true));
    q.set_available(false);
    assert!(!q.is_available());
    q.set_available(true);
    assert!(q.is_available());
}

#[test]
fn api_error_message_wraps_upstream_text() {
    let e = ErrorResponse { error: ErrorDetail { message: "bad key".to_string(), error_type: None, code: None } };
    assert_eq!(e.api_error_message(), "API error: bad key");
}

#[test]
fn upstream_model_name_keeps_last_segment() {
    assert_eq!(upstream_model_name("openrouter/deepseek-r1"), "deepseek-r1");
    assert_eq!(upstream_model_name("a/b/c"), "c");
    assert_eq!(upstream_model_name("gpt-4o"), "gpt-4o");
    assert_eq!(upstream_model_name("trailing/"), "");
    assert_eq!(upstream_model_name(""), "");
}

#[test]
fn app_error_answers() {
    let e = AppError::ModelNotFound("gpt-9".to_string());
    assert_eq!(e.status_code(), 404);
    assert_eq!(e.body(), "Model not found: gpt-9");
    assert_eq!(AppError::NoAvailableProvider.status_code(), 503);
    assert_eq!(AppError::NoAvailableProvider.body(), "No available provider");
    let e = AppError::UpstreamError("boom".to_string());
    assert_eq!(e.status_code(), 502);
    assert_eq!(e.body(), "Upstream error: boom");
    assert_eq!(AppError::from_forward_error(&ForwardError::QuotaExceeded).body(), "Upstream error: Provider quota exceeded");
    assert_eq!(AppError::invalid_method().body(), "Upstream error: Invalid method");
}

#[test]
fn forward_path_answers_missing_provider_as_upstream_error() {
    let e = AppError::NoAvailableProvider.on_forward_path();
    assert_eq!(e.status_code(), 502);
    assert_eq!(e.body(), "Upstream error: No available providers");
    let e = AppError::ModelNotFound("x".to_string()).on_forward_path();
    assert_eq!(e.status_code(), 404);
}

#[test]
fn headers_passed_upstream() {
    assert!(!forwards_header("host"));
    assert!(!forwards_header("authorization"));
    assert!(forwards_header("content-type"));
    assert!(forwards_header("x-request-id"));
}

#[test]
fn model_table_routes_requests() {
    let (pool, ids) = pool_of(&[("a", true), ("b", false), ("c", true)]);
    let mut table = ModelTable::new();
    table.insert("m1".to_string(), LoadBalancer::new(vec![ids[0]]));
    table.insert("m2".to_string(), LoadBalancer::new(vec![ids[1]]));
    assert_eq!(table.model_count(), 2);
    assert_eq!(table.find("m2"), Some(1));
    assert_eq!(table.find("m3"), None);
    match table.select_provider(&pool, "m3") {
        Err(e) => {
            assert_eq!(e.status_code(), 404);
            assert_eq!(e.body(), "Model not found: m3");
        }
        Ok(_) => panic!("unknown model served"),
    }
    match table.select_provider(&pool, "m2") {
        Err(e) => assert_eq!(e.status_code(), 503),
        Ok(_) => panic!("disabled provider served"),
    }
    assert_eq!(table.select_provider(&pool, "m1").ok(), Some(0));
    table.insert("m2".to_string(), LoadBalancer::new(vec![ids[2]]));
    assert_eq!(table.model_count(), 2);
    assert_eq!(table.select_provider(&pool, "m2").ok(), Some(2));
}

#[test]
fn pool_is_built_fresh_per_model() {
    let models = vec![
        model("m1", vec![config("a", true), config("b", true)]),
        model("m2", vec![config("c", false)]),
    ];
    let (pool, table, all) = build_pool(&models);
    assert_eq!(pool.len(), 3);
    assert_eq!(all, vec![0, 1, 2]);
    assert_eq!(table.model_count(), 2);
    assert_eq!(table.entry(0).0, "m1");
    assert_eq!(table.entry(0).1.provider_ids(), &vec![0, 1]);
    assert_eq!(table.entry(1).1.provider_ids(), &vec![2]);
    assert_eq!(pool.provider(2).name(), "c");
    assert!(!pool.is_available(2));
}

#[test]
fn repeated_model_name_is_served_by_its_last_entry() {
    let models = vec![
        model("m", vec![config("a", true)]),
        model("n", vec![config("b", true)]),
        model("m", vec![config("c", true)]),
    ];
    let (pool, table, all) = build_pool(&models);
    assert_eq!(pool.len(), 3);
    assert_eq!(all.len(), 3);
    assert_eq!(table.model_count(), 2);
    assert_eq!(table.entry(0).0, "m");
    assert_eq!(table.entry(0).1.provider_ids(), &vec![2]);
}

#[test]
fn server_state_routes_probes_and_lists_by_model() {
    let models = vec![
        model("m1", vec![config("a", true), config("b", true)]),
        model("m2", vec![config("c", true)]),
    ];
    let mut state = build_state(&models);
    assert_eq!(HEALTH_CHECK_INTERVAL_SECS, 30);
    assert_eq!(state.check_interval_secs(), 30);
    assert_eq!(state.health_check_count(), 3);
    assert_eq!(state.provider_count(), 3);

    // Provider `a` fails its probe: m1 is served by `b` only.
    let (url, key) = state.health_check_target(0);
    assert_eq!(url, "https://a.example.com/v1/models");
    assert_eq!(key, "a-key");
    state.record_health(0, false);
    for _ in 0..3 {
        assert_eq!(state.select_provider("m1").ok(), Some(1));
    }

    let listing = state.list_models();
    assert_eq!(listing.len(), 2);
    assert_eq!(listing[0].0, "m1");
    assert_eq!(listing[0].1.len(), 2);
    assert_eq!(listing[0].1[0].name, "a");
    assert!(!listing[0].1[0].available);
    assert!(listing[0].1[1].available);
    assert_eq!(listing[1].0, "m2");
    assert_eq!(listing[1].1[0].name, "c");

    // A success brings `a` back; a quota error on `c` takes m2 out of service.
    let _ = state.settle_chat_result(0, Ok(empty_response()));
    assert!(state.provider(0).is_available());
    let r = state.settle_chat_result(2, Err("insufficient balance".to_string()));
    assert_eq!(r.err().unwrap().message(), "Provider quota exceeded");
    match state.select_provider("m2") {
        Err(e) => assert_eq!(e.status_code(), 503),
        Ok(_) => panic!("provider with exhausted quota served"),
    }
    match state.select_provider("zzz") {
        Err(e) => assert_eq!(e.status_code(), 404),
        Ok(_) => panic!("unknown model served"),
    }
    let statuses = state.get_status();
    assert_eq!(statuses.len(), 3);
    assert!(statuses[0].available && statuses[1].available && !statuses[2].available);
}

#[test]
fn a_round_of_probes_sets_every_mark() {
    let models = vec![
        model("m1", vec![config("a", true), config("b", false)]),
        model("m2", vec![config("c", true)]),
    ];
    let mut state = build_state(&models);
    let _ = state.settle_chat_result(0, Err("quota exceeded".to_string()));
    assert!(!state.provider(0).is_available());
    state.record_round(&vec![true, true, false]);
    assert!(state.provider(0).is_available());
    assert!(!state.provider(1).is_available()); // disabled in the configuration
    assert!(state.provider(1).available);
    assert!(!state.provider(2).is_available());
    assert_eq!(state.select_provider("m1").ok(), Some(0));
    assert!(state.select_provider("m2").is_err());

    let (mut pool, _) = pool_of(&[("x", true), ("y", true), ("z", true)]);
    let hc = HealthChecker::new(vec![2, 0], 30);
    hc.record_round(&mut pool, &vec![false, false]);
    assert!(!pool.is_available(0));
    assert!(pool.is_available(1));
    assert!(!pool.is_available(2));
}

#[test]
fn health_checker_probes_and_records_by_position() {
    let (mut pool, _) = pool_of(&[("a", true), ("b", true)]);
    let hc = HealthChecker::new(vec![1], 45);
    assert_eq!(hc.check_interval_secs(), 45);
    assert_eq!(hc.provider_count(), 1);
    let (url, key) = hc.health_check_target(&pool, 0);
    assert_eq!(url, "https://b.example.com/v1/models");
    assert_eq!(key, "b-key");
    hc.record_health(&mut pool, 0, false);
    assert!(pool.is_available(0));
    assert!(!pool.is_available(1));
    let s = hc.get_status(&pool);
    assert_eq!(s.len(), 1);
    assert_eq!(s[0].api_base, "https://b.example.com/v1");
    assert!(!s[0].available);
    let shared = create_health_checker(vec![0, 1], 30);
    assert_eq!(shared.provider_count(), 2);
    let all: Vec<ProviderStatus> = statuses_of(&pool, &vec![1, 0]);
    assert_eq!(all[0].name, "b");
    assert_eq!(all[1].name, "a");
}

#[test]
fn env_references_and_resolution() {
    assert_eq!(env_reference("${OPENROUTER_API_KEY}"), Some("OPENROUTER_API_KEY".to_string()));
    assert_eq!(env_reference("sk-literal"), None);
    assert_eq!(env_reference("${X"), None);
    assert_eq!(resolve_setting("${K}", Some("secret".to_string())), "secret");
    assert_eq!(resolve_setting("${K}", None), "${K}");
    assert_eq!(resolve_setting("plain", Some("ignored".to_string())), "plain");
}

#[test]
fn listen_address_renders_port() {
    let s = ServerConfig { host: "0.0.0.0".to_string(), port: 8080, config_file: "config.yaml".to_string() };
    assert_eq!(s.listen_address(), "0.0.0.0:8080");
    let s = ServerConfig { host: "localhost".to_string(), port: 0, config_file: String::new() };
    assert_eq!(s.listen_address(), "localhost:0");
    let s = ServerConfig { host: "h".to_string(), port: 65535, config_file: String::new() };
    assert_eq!(s.listen_address(), "h:65535");
}

#[test]
fn provider_config_clone_keeps_fields() {
    let c = config("k", false);
    let d = c.clone();
    assert_eq!(d.name, "k");
    assert_eq!(d.api_base, c.api_base);
    assert_eq!(d.api_key, "k-key");
    assert!(!d.enabled);
}

#[test]
fn text_helpers() {
    assert_eq!(join_str("ab", "cd"), "abcd");
    assert!(contains_str("hello world", "lo w"));
    assert!(contains_str("abc", ""));
    assert!(!contains_str("abc", "abcd"));
    assert!(!contains_str("abc", "ac"));
    assert!(str_eq("x", "x"));
    assert!(!str_eq("x", "y"));
    let mut s = String::from("n=");
    push_decimal(&mut s, 1234567890);
    assert_eq!(s, "n=1234567890");
}
