//! Integration tests for the AI API pool library.

use ai_api_pool::config::ProviderConfig;
use ai_api_pool::health_check::create_health_checker;
use ai_api_pool::load_balancer::LoadBalancer;
use ai_api_pool::providers::{create_provider, Provider, ProviderPool};

#[test]
fn test_provider_creation() {
    let provider_config = ProviderConfig {
        name: "test-provider".to_string(),
        api_base: "https://api.test.com/v1".to_string(),
        api_key: "test-key".to_string(),
        enabled: true,
    };

    let provider = Provider::new(provider_config.clone());

    assert_eq!(provider.name(), "test-provider");
    assert!(provider.is_available()); // Should be available since enabled=true
}

#[test]
fn test_provider_availability() {
    let provider_config = ProviderConfig {
        name: "test".to_string(),
        api_base: "https://api.test.com".to_string(),
        api_key: "key".to_string(),
        enabled: false,
    };

    let provider = Provider::new(provider_config);
    assert!(!provider.is_available()); // Not available because enabled=false

    let provider_config = ProviderConfig {
        name: "test".to_string(),
        api_base: "https://api.test.com".to_string(),
        api_key: "key".to_string(),
        enabled: true,
    };

    let provider = Provider::new(provider_config);
    assert!(provider.is_available()); // Available because enabled=true
}

#[test]
fn test_provider_health_check_info() {
    let provider_config = ProviderConfig {
        name: "test".to_string(),
        api_base: "https://api.test.com/v1".to_string(),
        api_key: "my-key".to_string(),
        enabled: true,
    };

    let provider = Provider::new(provider_config);
    let (url, key) = provider.health_check_info();

    assert_eq!(url, "https://api.test.com/v1/models");
    assert_eq!(key, "my-key");
}

#[test]
fn test_load_balancer_selection() {
    let provider1_config = ProviderConfig {
        name: "provider1".to_string(),
        api_base: "https://api.test1.com".to_string(),
        api_key: "key1".to_string(),
        enabled: true,
    };

    let provider2_config = ProviderConfig {
        name: "provider2".to_string(),
        api_base: "https://api.test2.com".to_string(),
        api_key: "key2".to_string(),
        enabled: true,
    };

    let mut pool = ProviderPool::new();
    let p1 = create_provider(&mut pool, provider1_config);
    let p2 = create_provider(&mut pool, provider2_config);

    let mut lb = LoadBalancer::new(vec![p1, p2]);

    // Should get provider1 first
    let selected = lb.get_available_provider(&pool);
    assert!(selected.is_some());
}

#[test]
fn test_load_balancer_round_robin() {
    let provider1_config = ProviderConfig {
        name: "provider1".to_string(),
        api_base: "https://api.test1.com".to_string(),
        api_key: "key1".to_string(),
        enabled: true,
    };

    let provider2_config = ProviderConfig {
        name: "provider2".to_string(),
        api_base: "https://api.test2.com".to_string(),
        api_key: "key2".to_string(),
        enabled: true,
    };

    let mut pool = ProviderPool::new();
    let p1 = create_provider(&mut pool, provider1_config);
    let p2 = create_provider(&mut pool, provider2_config);

    let mut lb = LoadBalancer::new(vec![p1, p2]);

    // First selection
    let first = lb.get_available_provider(&pool);
    assert!(first.is_some());

    // Second selection - should be different (round robin)
    let second = lb.get_available_provider(&pool);
    assert!(second.is_some());
}

#[test]
fn test_load_balancer_skips_unavailable() {
    let provider1_config = ProviderConfig {
        name: "provider1".to_string(),
        api_base: "https://api.test1.com".to_string(),
        api_key: "key1".to_string(),
        enabled: false, // Disabled
    };

    let provider2_config = ProviderConfig {
        name: "provider2".to_string(),
        api_base: "https://api.test2.com".to_string(),
        api_key: "key2".to_string(),
        enabled: true,
    };

    let mut pool = ProviderPool::new();
    let p1 = create_provider(&mut pool, provider1_config);
    let p2 = create_provider(&mut pool, provider2_config);

    let mut lb = LoadBalancer::new(vec![p1, p2]);

    // Only provider2 should be available
    let selected = lb.get_available_provider(&pool);
    assert!(selected.is_some());

    let provider = selected.unwrap();
    assert_eq!(pool.provider(provider).name(), "provider2");
}

#[test]
fn test_load_balancer_no_available() {
    let provider_config = ProviderConfig {
        name: "provider1".to_string(),
        api_base: "https://api.test1.com".to_string(),
        api_key: "key1".to_string(),
        enabled: false, // Disabled
    };

    let mut pool = ProviderPool::new();
    let p1 = create_provider(&mut pool, provider_config);

    let mut lb = LoadBalancer::new(vec![p1]);

    // No providers available
    let selected = lb.get_available_provider(&pool);
    assert!(selected.is_none());
}

#[test]
fn test_load_balancer_mark_unavailable() {
    let provider_config = ProviderConfig {
        name: "test-provider".to_string(),
        api_base: "https://api.test.com".to_string(),
        api_key: "key".to_string(),
        enabled: true,
    };

    let mut pool = ProviderPool::new();
    let p1 = create_provider(&mut pool, provider_config);

    let mut lb = LoadBalancer::new(vec![p1]);

    // Initially available
    assert!(lb.get_available_provider(&pool).is_some());

    // Mark as unavailable
    lb.mark_provider_unavailable(&mut pool, "test-provider");

    // Now should not be available
    let selected = lb.get_available_provider(&pool);
    assert!(selected.is_none());
}

#[test]
fn test_load_balancer_providers_count() {
    let provider1_config = ProviderConfig {
        name: "provider1".to_string(),
        api_base: "https://api.test1.com".to_string(),
        api_key: "key1".to_string(),
        enabled: true,
    };

    let provider2_config = ProviderConfig {
        name: "provider2".to_string(),
        api_base: "https://api.test2.com".to_string(),
        api_key: "key2".to_string(),
        enabled: true,
    };

    let mut pool = ProviderPool::new();
    let p1 = create_provider(&mut pool, provider1_config);
    let p2 = create_provider(&mut pool, provider2_config);

    let lb = LoadBalancer::new(vec![p1, p2]);

    assert_eq!(lb.providers_count(), 2);
}

// Test HealthChecker
#[test]
fn test_health_checker_status() {
    let provider_config = ProviderConfig {
        name: "test-provider".to_string(),
        api_base: "https://api.test.com".to_string(),
        api_key: "key".to_string(),
        enabled: true,
    };

    let mut pool = ProviderPool::new();
    let p1 = create_provider(&mut pool, provider_config);

    let checker = create_health_checker(vec![p1], 30);

    let statuses = checker.get_status(&pool);

    assert_eq!(statuses.len(), 1);
    assert_eq!(statuses[0].name, "test-provider");
    assert!(statuses[0].available);
}

#[test]
fn test_health_checker_multiple_providers() {
    let provider1_config = ProviderConfig {
        name: "provider1".to_string(),
        api_base: "https://api.test1.com".to_string(),
        api_key: "key1".to_string(),
        enabled: true,
    };

    let provider2_config = ProviderConfig {
        name: "provider2".to_string(),
        api_base: "https://api.test2.com".to_string(),
        api_key: "key2".to_string(),
        enabled: false,
    };

    let mut pool = ProviderPool::new();
    let p1 = create_provider(&mut pool, provider1_config);
    let p2 = create_provider(&mut pool, provider2_config);

    let checker = create_health_checker(vec![p1, p2], 30);

    let statuses = checker.get_status(&pool);

    assert_eq!(statuses.len(), 2);

    // Find provider1 - should be available
    let p1_status = statuses.iter().find(|s| s.name == "provider1").unwrap();
    assert!(p1_status.available);

    // Find provider2 - should not be available (enabled=false)
    let p2_status = statuses.iter().find(|s| s.name == "provider2").unwrap();
    assert!(!p2_status.available);
}
