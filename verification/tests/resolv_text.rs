use wsl_dns_agent::dns::{DnsConfiguration, IpAddress};

fn config(servers: Vec<IpAddress>, suffixes: Vec<&str>) -> DnsConfiguration {
    DnsConfiguration {
        servers,
        suffixes: suffixes.into_iter().map(|s| s.to_string()).collect(),
    }
}

#[test]
fn renders_servers_and_search_line() {
    let c = config(
        vec![IpAddress::V4(1, 1, 1, 1), IpAddress::V4(8, 8, 8, 8)],
        vec!["corp.example", "branch.example"],
    );
    let text = c.generate_resolv("2024-01-02 03:04:05");
    assert_eq!(
        text,
        "# Generated by WSL2 DNS Agent at 2024-01-02 03:04:05\n\
         nameserver 1.1.1.1\n\
         nameserver 8.8.8.8\n\
         search corp.example branch.example\n"
    );
}

#[test]
fn only_first_three_ipv4_servers_are_rendered() {
    let c = config(
        vec![
            IpAddress::V4(10, 0, 0, 1),
            IpAddress::V4(10, 0, 0, 2),
            IpAddress::V4(10, 0, 0, 3),
            IpAddress::V4(10, 0, 0, 4),
        ],
        vec![],
    );
    let text = c.generate_resolv("ts");
    assert_eq!(
        text,
        "# Generated by WSL2 DNS Agent at ts\n\
         nameserver 10.0.0.1\n\
         nameserver 10.0.0.2\n\
         nameserver 10.0.0.3\n"
    );
}

#[test]
fn ipv6_servers_are_skipped() {
    let c = config(
        vec![
            IpAddress::V6(0x20, 1, 0, 0, 0, 0, 0, 1),
            IpAddress::V4(9, 9, 9, 9),
            IpAddress::V6(0x20, 1, 0, 0, 0, 0, 0, 2),
            IpAddress::V4(149, 112, 112, 112),
        ],
        vec![],
    );
    let text = c.generate_resolv("ts");
    assert_eq!(
        text,
        "# Generated by WSL2 DNS Agent at ts\n\
         nameserver 9.9.9.9\n\
         nameserver 149.112.112.112\n"
    );
}

#[test]
fn no_suffixes_means_no_search_line() {
    let c = config(vec![IpAddress::V4(1, 2, 3, 4)], vec![]);
    let text = c.generate_resolv("ts");
    assert!(!text.contains("search"));
    assert_eq!(text, "# Generated by WSL2 DNS Agent at ts\nnameserver 1.2.3.4\n");
}

#[test]
fn empty_configuration_renders_header_only() {
    let c = config(vec![], vec![]);
    let text = c.generate_resolv("ts");
    assert_eq!(text, "# Generated by WSL2 DNS Agent at ts\n");
}

#[test]
fn generation_is_deterministic_and_idempotent() {
    let c1 = config(vec![IpAddress::V4(1, 1, 1, 1)], vec!["a.example"]);
    let c2 = config(vec![IpAddress::V4(1, 1, 1, 1)], vec!["a.example"]);
    let first = c1.generate_resolv("2024-06-01 12:00:00");
    let second = c1.generate_resolv("2024-06-01 12:00:00");
    let third = c2.generate_resolv("2024-06-01 12:00:00");
    assert_eq!(first, second);
    assert_eq!(first, third);
}

#[test]
fn decimal_octets_render_without_leading_zeros() {
    let c = config(vec![IpAddress::V4(0, 7, 42, 255)], vec![]);
    let text = c.generate_resolv("ts");
    assert_eq!(text, "# Generated by WSL2 DNS Agent at ts\nnameserver 0.7.42.255\n");
}
