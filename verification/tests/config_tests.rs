use resolver_core::config::{Config, DnsConfig, HttpConfig, LogConfig};

#[test]
fn test_default_config() {
    let config = Config::default();
    assert_eq!(config.schema_version, 0);
}

#[test]
fn default_sections_are_empty() {
    let dns = DnsConfig::default();
    assert_eq!(dns.upstream_mode, "");
    assert!(dns.addresses.is_empty());
    assert!(dns.bootstrap_dns.is_empty());
    assert!(dns.upstream_dns.is_empty());
    assert_eq!(dns.upstream_timeout, "");

    let http = HttpConfig::default();
    assert!(http.addresses.is_empty());
    assert!(!http.force_https);
    assert_eq!(http.session_ttl, 0);

    let log = LogConfig::default();
    assert!(!log.verbose);
    assert_eq!(log.file, "");
}

#[test]
fn server_holds_its_config() {
    let mut dns = DnsConfig::default();
    dns.upstream_mode = String::from("parallel");
    let server = resolver_core::dns::Server::new(dns);
    assert_eq!(server.config.upstream_mode, "parallel");
}

#[test]
fn http_addr_default_and_configured() {
    let mut http = HttpConfig::default();
    assert_eq!(resolver_core::web::choose_http_addr(&http), "0.0.0.0:3000");
    http.addresses.push(String::from("127.0.0.1:8080"));
    http.addresses.push(String::from("127.0.0.1:9090"));
    assert_eq!(resolver_core::web::choose_http_addr(&http), "127.0.0.1:8080");
}
