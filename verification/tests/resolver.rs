use wsl_dns_agent::dns::{
    dedup_addresses, dedup_strings, get_configuration, Adapter, DnsConfiguration, Error,
    IpAddress, Route,
};

fn v4(a: u8, b: u8, c: u8, d: u8) -> IpAddress {
    IpAddress::V4(a, b, c, d)
}

fn v6_unspecified() -> IpAddress {
    IpAddress::V6(0, 0, 0, 0, 0, 0, 0, 0)
}

fn adapter(
    description: &str,
    v4_metric: u32,
    v6_metric: u32,
    v4_index: u32,
    v6_index: u32,
    servers: Vec<IpAddress>,
    suffixes: Vec<&str>,
) -> Adapter {
    Adapter {
        description: description.to_string(),
        ipv4_metric: v4_metric,
        ipv6_metric: v6_metric,
        ipv4_interface_index: v4_index,
        ipv6_interface_index: v6_index,
        dns_servers: servers,
        dns_suffixes: suffixes.into_iter().map(|s| s.to_string()).collect(),
    }
}

fn internet_route_v4(interface_index: u32, metric: u32) -> Route {
    Route {
        interface_index,
        metric,
        destination_prefix_ip: v4(0, 0, 0, 0),
        destination_prefix_len: 0,
    }
}

#[test]
fn no_internet_route_resolves_to_empty_configuration() {
    // A route that is not an internet route (non-zero prefix) and an adapter.
    let routes = vec![Route {
        interface_index: 5,
        metric: 10,
        destination_prefix_ip: v4(192, 168, 0, 0),
        destination_prefix_len: 16,
    }];
    let adapters = vec![adapter("eth", 10, 10, 5, 5, vec![v4(1, 1, 1, 1)], vec!["lan"])];
    let config = get_configuration(&routes, &adapters).unwrap();
    assert!(config.servers.is_empty());
    assert!(config.suffixes.is_empty());
}

#[test]
fn mismatched_route_interface_fails() {
    let routes = vec![internet_route_v4(7, 0)];
    let adapters = vec![adapter("eth", 10, 10, 5, 5, vec![v4(1, 1, 1, 1)], vec![])];
    let err = get_configuration(&routes, &adapters).unwrap_err();
    assert!(matches!(err, Error::RouteInterfaceMismatch));
    assert!(err.is_retryable());
}

#[test]
fn lowest_effective_metric_wins() {
    // Adapter 1: route metric 10 + interface metric 30 = 40.
    // Adapter 2: route metric 20 + interface metric 5 = 25. Adapter 2 wins.
    let routes = vec![internet_route_v4(1, 10), internet_route_v4(2, 20)];
    let adapters = vec![
        adapter("one", 30, 30, 1, 1, vec![v4(10, 0, 0, 1)], vec!["one.example"]),
        adapter("two", 5, 5, 2, 2, vec![v4(10, 0, 0, 2)], vec!["two.example"]),
    ];
    let config = get_configuration(&routes, &adapters).unwrap();
    assert_eq!(config.servers, vec![v4(10, 0, 0, 2)]);
    assert_eq!(config.suffixes, vec!["two.example".to_string()]);
}

#[test]
fn metric_tie_breaks_by_enumeration_order() {
    let routes = vec![internet_route_v4(1, 10), internet_route_v4(2, 10)];
    let adapters = vec![
        adapter("first", 5, 5, 1, 1, vec![v4(10, 0, 0, 1)], vec![]),
        adapter("second", 5, 5, 2, 2, vec![v4(10, 0, 0, 2)], vec![]),
    ];
    let config = get_configuration(&routes, &adapters).unwrap();
    assert_eq!(config.servers, vec![v4(10, 0, 0, 1)]);
}

#[test]
fn ipv4_and_ipv6_winners_merge_ipv4_first() {
    let routes = vec![
        Route {
            interface_index: 9,
            metric: 0,
            destination_prefix_ip: v6_unspecified(),
            destination_prefix_len: 0,
        },
        internet_route_v4(3, 0),
    ];
    let adapters = vec![
        adapter("v6", 50, 1, 8, 9, vec![IpAddress::V6(0x20, 0, 0, 0, 0, 0, 0, 1)], vec!["six"]),
        adapter("v4", 1, 50, 3, 4, vec![v4(8, 8, 8, 8)], vec!["four"]),
    ];
    let config = get_configuration(&routes, &adapters).unwrap();
    assert_eq!(
        config.servers,
        vec![v4(8, 8, 8, 8), IpAddress::V6(0x20, 0, 0, 0, 0, 0, 0, 1)]
    );
    assert_eq!(config.suffixes, vec!["four".to_string(), "six".to_string()]);
}

#[test]
fn resolved_lists_are_deduplicated_in_first_seen_order() {
    // The IPv4 and IPv6 winners are the same adapter: its servers and
    // suffixes are merged and must appear once each, in order.
    let routes = vec![
        internet_route_v4(1, 0),
        Route {
            interface_index: 2,
            metric: 0,
            destination_prefix_ip: v6_unspecified(),
            destination_prefix_len: 0,
        },
    ];
    let shared = adapter(
        "both",
        1,
        1,
        1,
        2,
        vec![v4(9, 9, 9, 9), v4(8, 8, 8, 8)],
        vec!["a.example", "b.example"],
    );
    let config = get_configuration(&routes, &vec![shared]).unwrap();
    assert_eq!(config.servers, vec![v4(9, 9, 9, 9), v4(8, 8, 8, 8)]);
    assert_eq!(
        config.suffixes,
        vec!["a.example".to_string(), "b.example".to_string()]
    );
}

#[test]
fn empty_snapshots_resolve_to_empty_configuration() {
    let config = get_configuration(&Vec::new(), &Vec::new()).unwrap();
    assert!(config.servers.is_empty());
    assert!(config.suffixes.is_empty());
}

#[test]
fn dedup_addresses_keeps_first_occurrences() {
    let v = vec![v4(1, 1, 1, 1), v4(2, 2, 2, 2), v4(1, 1, 1, 1), v4(3, 3, 3, 3), v4(2, 2, 2, 2)];
    let deduped = dedup_addresses(&v);
    assert_eq!(deduped, vec![v4(1, 1, 1, 1), v4(2, 2, 2, 2), v4(3, 3, 3, 3)]);
}

#[test]
fn dedup_strings_keeps_first_occurrences() {
    let v = vec![
        "a".to_string(),
        "b".to_string(),
        "a".to_string(),
        "c".to_string(),
        "b".to_string(),
    ];
    let deduped = dedup_strings(&v);
    assert_eq!(deduped, vec!["a".to_string(), "b".to_string(), "c".to_string()]);
}

#[test]
fn default_configuration_is_empty() {
    let config = DnsConfiguration::default();
    assert!(config.servers.is_empty());
    assert!(config.suffixes.is_empty());
}

#[test]
fn permanent_errors_are_not_retryable() {
    assert!(!Error::GetIpForwardTable2(-5).is_retryable());
    assert!(!Error::GetAdaptersAddresses(-5).is_retryable());
    assert!(Error::GetAdaptersAddressesOverflow.is_retryable());
}
