use humbird::ascii;
use humbird::config::{static_file_path, ConfigRegistry};
use humbird::dict::Dict;
use humbird::engine::{
    accept_step, event_action, retry_poller_init, AcceptOutcome, AcceptStep, EventAction,
    TokenCounter,
};
use humbird::method::Method;
use humbird::proxy::{BalancingMode, Proxy};
use humbird::request::Request;

#[test]
fn accept_errors_never_stop_the_engine() {
    assert_eq!(accept_step(&AcceptOutcome::Accepted), AcceptStep::HandleConnection);
    assert_eq!(accept_step(&AcceptOutcome::WouldBlock), AcceptStep::EndAcceptLoop);
    assert_eq!(accept_step(&AcceptOutcome::OtherError), AcceptStep::LogAndEndAcceptLoop);
}

#[test]
fn event_dispatch_by_token() {
    assert_eq!(event_action(0, false, false), EventAction::AcceptLoop);
    assert_eq!(event_action(7, true, true), EventAction::Serve);
    assert_eq!(event_action(7, true, false), EventAction::Ignore);
    assert_eq!(event_action(7, false, true), EventAction::Ignore);
}

#[test]
fn tokens_are_fresh_and_never_the_listener() {
    let mut c = TokenCounter::new();
    let a = c.fresh();
    let b = c.fresh();
    let d = c.fresh();
    assert_eq!(a, 1);
    assert_eq!(b, 2);
    assert_eq!(d, 3);
    assert!(a != 0 && b != 0 && d != 0);
}

#[test]
fn poller_init_is_retried_once() {
    assert!(retry_poller_init(0));
    assert!(!retry_poller_init(1));
    assert!(!retry_poller_init(2));
}

#[test]
fn config_defaults() {
    let c = ConfigRegistry::new();
    assert_eq!(c.listen_addr, b"0.0.0.0".to_vec());
    assert_eq!(c.listen_port, b"9999".to_vec());
    assert_eq!(c.root_path, Vec::<u8>::new());
    assert!(c.proxy_targets.is_empty());
}

#[test]
fn config_overrides() {
    let mut c = ConfigRegistry::new();
    c.set_port("8080");
    c.set_root_path("/srv/www");
    c.push_proxy_target("backend:9000");
    c.push_proxy_target("other:9001");
    assert_eq!(c.listen_port, b"8080".to_vec());
    assert_eq!(c.root_path, b"/srv/www".to_vec());
    assert_eq!(c.proxy_targets.len(), 2);
    assert_eq!(c.proxy_targets[0], b"backend:9000".to_vec());
}

#[test]
fn static_path_joins_root_and_target() {
    assert_eq!(static_file_path(b"/srv/www/", b"/index.html"), b"/srv/www/index.html".to_vec());
    assert_eq!(static_file_path(b"root/", b"/"), b"root/".to_vec());
    assert_eq!(static_file_path(b"root/", b""), b"root/".to_vec());
}

#[test]
fn forward_assembles_the_backend_reply() {
    let req = Request::decode(b"GET / HTTP/1.1\r\nHost: x\r\n\r\n").unwrap();
    let reply = b"HTTP/1.1 200 OK\r\nContent-Length:3\r\n\r\nabc";
    let proxy = Proxy::assemble(req, reply).unwrap();
    assert_eq!(proxy.response.body, b"abc".to_vec());
    assert_eq!(proxy.response.status_code, b"200".to_vec());
    assert_eq!(proxy.request.path, b"/".to_vec());
}

#[test]
fn forward_refuses_a_non_http_reply() {
    let req = Request::decode(b"GET / HTTP/1.1\r\n\r\n").unwrap();
    let e = Proxy::assemble(req, b"nonsense").unwrap_err();
    assert_eq!(e, String::new());
}

#[test]
fn every_balancing_mode_routes_to_the_supplied_backend() {
    for mode in [BalancingMode::WEIGHT, BalancingMode::RANDOM, BalancingMode::POLLING] {
        let (h, p) = Proxy::balance_target("host", "80", &mode);
        assert_eq!(h, "host");
        assert_eq!(p, "80");
    }
}

#[test]
fn method_tokens_map_to_variants() {
    assert_eq!(Method::new("GET"), Method::GET);
    assert_eq!(Method::new("POST"), Method::POST);
    assert_eq!(Method::new("HEAD"), Method::HEAD);
    assert_eq!(Method::new("PUT"), Method::PUT);
    assert_eq!(Method::new("DELETE"), Method::DELETE);
    assert_eq!(Method::new("CONNECT"), Method::CONNECT);
    assert_eq!(Method::new("OPTIONS"), Method::OPTIONS);
    assert_eq!(Method::new("TRACE"), Method::TRACE);
    assert_eq!(Method::new("FETCH"), Method::DEFAULT);
    assert_eq!(Method::new(""), Method::DEFAULT);
}

#[test]
fn decimal_parse_and_print() {
    assert_eq!(ascii::parse_u64(b"0"), Some(0));
    assert_eq!(ascii::parse_u64(b"12345"), Some(12345));
    assert_eq!(ascii::parse_u64(b"18446744073709551615"), Some(u64::MAX));
    assert_eq!(ascii::parse_u64(b"18446744073709551616"), None);
    assert_eq!(ascii::parse_u64(b""), None);
    assert_eq!(ascii::parse_u64(b"12a"), None);
    let mut out = Vec::new();
    ascii::push_dec(0, &mut out);
    ascii::push_dec(907, &mut out);
    assert_eq!(out, b"0907".to_vec());
}

#[test]
fn trim_and_strip() {
    assert_eq!(ascii::trim_bytes(b"  a b \r\n"), b"a b".to_vec());
    assert_eq!(ascii::trim_bytes(b""), Vec::<u8>::new());
    assert_eq!(ascii::trim_bytes(b" \t "), Vec::<u8>::new());
    assert_eq!(ascii::strip_cr_lf(b"a\rb\nc"), b"abc".to_vec());
}

#[test]
fn dict_is_last_write_wins_in_place() {
    let mut d = Dict::new();
    d.insert(b"a".to_vec(), b"1".to_vec());
    d.insert(b"b".to_vec(), b"2".to_vec());
    d.insert(b"a".to_vec(), b"3".to_vec());
    assert_eq!(d.len(), 2);
    assert_eq!(d.get(b"a").unwrap(), &b"3".to_vec());
    assert_eq!(d.get(b"b").unwrap(), &b"2".to_vec());
    assert!(d.get(b"c").is_none());
    assert_eq!(d.key_at(0), &b"a".to_vec());
    assert_eq!(d.key_at(1), &b"b".to_vec());
    assert!(d.contains_key(b"a"));
    assert!(!d.contains_key(b"z"));
}
