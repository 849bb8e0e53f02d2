use sha2::Digest;
use linkscope::codec::{UrlFacts, UrlRefusal};
use linkscope::json::Json;
use linkscope::network::{ATTEMPTS, Next, next_step};
use linkscope::network::{
    Gate, NetError, NetworkConfig, Outcome, Route, announced_within, bootstrap, cache_key, check_request, chunk_within,
    outcome, parse_u64, resolved_addresses, route_json, strip_brackets, validate_route,
};

fn is_ip(s: &str) -> bool {
    let v4 = s.split('.').count() == 4 && s.split('.').all(|p| !p.is_empty() && p.len() <= 3 && p.chars().all(|c| c.is_ascii_digit()) && p.parse::<u16>().map_or(false, |n| n <= 255));
    let v6 = s.contains(':') && s.chars().all(|c| c.is_ascii_hexdigit() || c == ':' || c == '.');
    v4 || v6
}

fn facts(scheme: &str, host: Option<&str>) -> UrlFacts {
    UrlFacts {
        scheme: scheme.to_string(),
        host: host.map(|h| h.to_string()),
        username: String::new(),
        password: None,
        query: None,
        fragment: None,
        text: format!("{}://{}/", scheme, host.unwrap_or("")),
    }
}

fn proxy(url: &str) -> Route {
    Route::Proxy { url: url.to_string() }
}

#[test]
fn default_configuration_is_offline_and_anonymous() {
    let c = NetworkConfig::default();
    assert!(c.anonymous);
    assert!(matches!(c.default_route, Route::Offline));
    assert!(c.sources.is_empty());
    assert_eq!(c.check(&is_ip), Ok(()));
}

#[test]
fn offline_is_always_valid() {
    assert_eq!(validate_route(&Route::Offline, true, &is_ip), Ok(()));
    assert_eq!(validate_route(&Route::Offline, false, &is_ip), Ok(()));
}

#[test]
fn direct_doh_needs_non_anonymous_mode_and_a_known_resolver() {
    let google = Route::DirectDoh { resolver: "google".to_string() };
    assert_eq!(validate_route(&google, true, &is_ip), Err(NetError::AnonymousNeedsProxy));
    assert_eq!(validate_route(&google, false, &is_ip), Ok(()));
    let cf = Route::DirectDoh { resolver: "cloudflare".to_string() };
    assert_eq!(validate_route(&cf, false, &is_ip), Ok(()));
    let quad9 = Route::DirectDoh { resolver: "quad9".to_string() };
    assert_eq!(validate_route(&quad9, false, &is_ip), Err(NetError::UnsupportedResolver));
}

#[test]
fn proxies_need_remote_dns_schemes_literal_ips_and_no_credentials() {
    assert_eq!(validate_route(&proxy("socks5h://127.0.0.1:9050"), true, &is_ip), Ok(()));
    assert_eq!(validate_route(&proxy("http://[::1]:8080"), true, &is_ip), Ok(()));
    assert_eq!(validate_route(&proxy("socks5://127.0.0.1:9050"), true, &is_ip), Err(NetError::ProxyScheme));
    assert_eq!(validate_route(&proxy("https://proxy.example:8080"), true, &is_ip), Err(NetError::ProxyHostNotIp));
    assert_eq!(validate_route(&proxy("http://user:pw@127.0.0.1:8080"), true, &is_ip), Err(NetError::ProxyCredentials));
    assert_eq!(validate_route(&proxy("http://127.0.0.1:8080/?a=b"), true, &is_ip), Err(NetError::ProxyCredentials));
    assert_eq!(
        validate_route(&proxy("not a url"), true, &is_ip),
        Err(NetError::InvalidUrl(UrlRefusal::RelativeUrlWithoutBase))
    );
}

#[test]
fn a_refused_proxy_url_reports_why_url_refused_it() {
    let r = validate_route(&proxy("http://127.0.0.1:99999"), true, &is_ip);
    assert_eq!(r, Err(NetError::InvalidUrl(UrlRefusal::InvalidPort)));
    assert_eq!(r.unwrap_err().message(), "invalid port number");
    let r = validate_route(&proxy("not a url"), true, &is_ip);
    assert_eq!(r.unwrap_err().message(), "relative URL without a base");
    let r = validate_route(&proxy("http://[::1"), true, &is_ip);
    assert_eq!(r, Err(NetError::InvalidUrl(UrlRefusal::InvalidIpv6Address)));
}

#[test]
fn tor_and_chains_never_fall_back() {
    assert_eq!(validate_route(&Route::Tor, false, &is_ip), Err(NetError::TorUnavailable));
    assert_eq!(validate_route(&Route::Chain, false, &is_ip), Err(NetError::ChainUnavailable));
    assert_eq!(NetError::TorUnavailable.message(), "embedded Arti transport is not implemented; no direct fallback");
}

#[test]
fn brackets_are_stripped_from_ipv6_hosts() {
    assert_eq!(strip_brackets("[::1]"), "::1");
    assert_eq!(strip_brackets("[[a]]"), "a");
    assert_eq!(strip_brackets("host"), "host");
}

#[test]
fn configuration_check_reports_the_first_bad_route() {
    let c = NetworkConfig {
        anonymous: true,
        default_route: Route::Offline,
        sources: vec![("a".to_string(), proxy("socks5h://10.0.0.1:1080")), ("b".to_string(), Route::Tor), ("c".to_string(), Route::Chain)],
    };
    assert_eq!(c.check(&is_ip), Err(NetError::TorUnavailable));
}

#[test]
fn setting_a_source_again_replaces_its_route() {
    let mut c = NetworkConfig::default();
    c.set_source("crtsh".to_string(), Route::Tor);
    c.set_source("urlscan".to_string(), Route::Chain);
    c.set_source("crtsh".to_string(), Route::DirectDoh { resolver: "google".to_string() });
    assert_eq!(c.sources.len(), 2);
    assert!(matches!(c.route_for("crtsh"), Route::DirectDoh { .. }));
    assert!(matches!(c.route_for("urlscan"), Route::Chain));
    assert!(matches!(c.route_for("other"), Route::Offline));
}

#[test]
fn sources_take_their_own_route_else_the_default() {
    let c = NetworkConfig {
        anonymous: false,
        default_route: Route::DirectDoh { resolver: "google".to_string() },
        sources: vec![("crtsh".to_string(), Route::Offline)],
    };
    assert!(matches!(c.route_for("crtsh"), Route::Offline));
    assert!(matches!(c.route_for("urlscan"), Route::DirectDoh { .. }));
    let url = facts("https", Some("crt.sh"));
    assert_eq!(c.plan("crtsh", &url, &is_ip).err(), Some(NetError::Offline));
    assert!(matches!(c.plan("urlscan", &url, &is_ip), Ok(Route::DirectDoh { .. })));
}

#[test]
fn only_credential_free_https_urls_are_fetched() {
    assert_eq!(check_request(&facts("https", Some("example.org"))), Ok(()));
    assert_eq!(check_request(&facts("http", Some("example.org"))), Err(NetError::CredentialFreeHttpsOnly));
    assert_eq!(check_request(&facts("https", None)), Err(NetError::CredentialFreeHttpsOnly));
    let mut f = facts("https", Some("example.org"));
    f.username = "me".to_string();
    assert_eq!(check_request(&f), Err(NetError::CredentialFreeHttpsOnly));
    let mut f = facts("https", Some("example.org"));
    f.password = Some("pw".to_string());
    assert_eq!(check_request(&f), Err(NetError::CredentialFreeHttpsOnly));
}

#[test]
fn routes_encode_as_tagged_json() {
    assert_eq!(route_json(&Route::Offline), "{\"mode\":\"offline\"}");
    assert_eq!(route_json(&Route::DirectDoh { resolver: "google".to_string() }), "{\"mode\":\"direct_doh\",\"resolver\":\"google\"}");
    assert_eq!(route_json(&proxy("socks5h://127.0.0.1:9050")), "{\"mode\":\"proxy\",\"url\":\"socks5h://127.0.0.1:9050\"}");
    assert_eq!(route_json(&Route::Tor), "{\"mode\":\"tor\"}");
}

#[test]
fn cache_keys_hash_source_url_and_route() {
    let key = cache_key("crtsh", "https://crt.sh/?q=x", &Route::Offline);
    let expected = format!("{:x}", sha2::Sha256::digest(b"crtsh|https://crt.sh/?q=x|{\"mode\":\"offline\"}"));
    assert_eq!(key, expected);
    assert_eq!(key.len(), 64);
    assert_ne!(key, cache_key("crtsh", "https://crt.sh/?q=y", &Route::Offline));
}

#[test]
fn requests_to_a_source_are_spaced() {
    let mut g = Gate::new(1000);
    assert_eq!(g.reserve(1000), Ok(1000));
    assert_eq!(g.reserve(1000), Ok(2100));
    assert_eq!(g.reserve(5000), Ok(5000));
    assert_eq!(g.next, 6100);
}

#[test]
fn fifth_failure_opens_the_circuit_for_thirty_seconds() {
    let mut g = Gate::new(0);
    for _ in 0..4 {
        g.failed(10);
    }
    assert_eq!(g.failures, 4);
    assert_eq!(g.reserve(10), Ok(10));
    g.failed(20);
    assert_eq!(g.failures, 0);
    assert_eq!(g.open_until, 30020);
    assert_eq!(g.reserve(30019), Err(NetError::CircuitOpen));
    assert!(g.reserve(30020).is_ok());
}

#[test]
fn a_success_restarts_the_failure_count() {
    let mut g = Gate::new(0);
    g.failed(1);
    g.failed(2);
    g.succeeded();
    assert_eq!(g.failures, 0);
}

#[test]
fn outcomes_of_attempts() {
    assert_eq!(outcome(Some(200), None, 0, 0), Outcome::Deliver);
    assert_eq!(outcome(Some(204), None, 2, 0), Outcome::Deliver);
    assert_eq!(outcome(Some(302), None, 0, 0), Outcome::Refuse { status: 302 });
    assert_eq!(outcome(Some(404), None, 0, 0), Outcome::Refuse { status: 404 });
    assert_eq!(outcome(Some(429), Some("7"), 0, 0), Outcome::Retry { delay_ms: 7000 });
    assert_eq!(outcome(Some(503), Some("120"), 1, 0), Outcome::Retry { delay_ms: 60000 });
    assert_eq!(outcome(Some(503), Some("soon"), 1, 1000), Outcome::Retry { delay_ms: 1000 + 1000 % 211 });
    assert_eq!(outcome(None, None, 2, 422), Outcome::Retry { delay_ms: 2000 });
    assert_eq!(outcome(Some(500), None, 0, 5), Outcome::Retry { delay_ms: 505 });
}

#[test]
fn retry_after_numbers_parse_as_u64() {
    assert_eq!(parse_u64("42"), Some(42));
    assert_eq!(parse_u64("+42"), Some(42));
    assert_eq!(parse_u64(""), None);
    assert_eq!(parse_u64("4x"), None);
    assert_eq!(parse_u64("18446744073709551615"), Some(u64::MAX));
    assert_eq!(parse_u64("18446744073709551616"), None);
}

#[test]
fn response_limits() {
    assert!(announced_within(None, 10));
    assert!(announced_within(Some(10), 10));
    assert!(!announced_within(Some(11), 10));
    assert!(chunk_within(5, 5, 10));
    assert!(!chunk_within(6, 5, 10));
}

#[test]
fn resolvers_are_reached_without_dns() {
    assert_eq!(bootstrap("google"), ("dns.google", "8.8.8.8", "resolve"));
    assert_eq!(bootstrap("cloudflare"), ("cloudflare-dns.com", "1.1.1.1", "dns-query"));
}

fn answer(t: i64, data: &str) -> Json {
    Json::Object(vec![("type".to_string(), Json::Number(Some(t))), ("data".to_string(), Json::String(data.to_string()))])
}

#[test]
fn resolution_keeps_a_records_with_address_data() {
    let json = Json::Object(vec![(
        "Answer".to_string(),
        Json::Array(vec![answer(5, "alias.example."), answer(1, "93.184.216.34"), answer(28, "2606:2800::1"), answer(1, "bogus")]),
    )]);
    assert_eq!(resolved_addresses(&json, &is_ip), vec!["93.184.216.34".to_string()]);
    assert!(resolved_addresses(&Json::Null, &is_ip).is_empty());
}

#[test]
fn retries_stop_after_the_last_attempt() {
    assert_eq!(ATTEMPTS, 3);
    assert_eq!(next_step(Outcome::Retry { delay_ms: 500 }, 0), Next::Wait { delay_ms: 500 });
    assert_eq!(next_step(Outcome::Retry { delay_ms: 500 }, 1), Next::Wait { delay_ms: 500 });
    assert_eq!(next_step(Outcome::Retry { delay_ms: 500 }, 2), Next::GiveUp);
    assert_eq!(next_step(Outcome::Deliver, 2), Next::Deliver);
    assert_eq!(next_step(Outcome::Refuse { status: 404 }, 0), Next::Refuse { status: 404 });
    assert_eq!(NetError::Unavailable.message(), "source unavailable after three attempts");
}

#[test]
fn slots_stay_spaced_and_the_open_circuit_holds_over_a_run() {
    let mut g = Gate::new(0);
    let mut granted = Vec::new();
    for t in [0u64, 10, 20, 5000, 5001] {
        granted.push(g.reserve(t).unwrap());
    }
    assert!(granted.windows(2).all(|w| w[1] >= w[0] + 1100));
    for _ in 0..5 {
        g.failed(9000);
    }
    for t in [9000u64, 20000, 38999] {
        assert_eq!(g.reserve(t), Err(NetError::CircuitOpen));
        g.failed(t);
    }
    assert_eq!(g.open_until, 39000);
}
