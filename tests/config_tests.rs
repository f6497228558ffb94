use aetherlink::client::{listing_result, ClientError};
use aetherlink::config::{tilde, Config, ConfigError};
use aetherlink::forward::{forward_reply, with_host_header, ForwardOutcome, BAD_GATEWAY};
use aetherlink::text::same_text;
use aetherlink::tunnel::TunnelMessage;

#[test]
fn resolve_node_prefix_and_length() {
    let c = Config::new();
    assert_eq!(c.resolve_server("node123"), Ok("node123".to_string()));
    let id52 = "a".repeat(52);
    assert_eq!(c.resolve_server(&id52), Ok(id52.clone()));
    assert_eq!(c.resolve_server("nod"), Err(ConfigError::UnknownServer("nod".to_string())));
}

#[test]
fn resolve_alias() {
    let mut c = Config::new();
    c.servers.push(("main".to_string(), "abc".to_string()));
    c.servers.push(("backup".to_string(), "def".to_string()));
    assert_eq!(c.resolve_server("backup"), Ok("def".to_string()));
    assert_eq!(c.resolve_server("other"), Err(ConfigError::UnknownServer("other".to_string())));
}

#[test]
fn tilde_expansion() {
    assert_eq!(tilde("~/.aetherlink", Some("/home/u")), "/home/u/.aetherlink");
    assert_eq!(tilde("~/.aetherlink", None), "~/.aetherlink");
    assert_eq!(tilde("/etc/x", Some("/home/u")), "/etc/x");
    assert_eq!(tilde("~x", Some("/home/u")), "~x");
}

#[test]
fn unreachable_destination_gives_502() {
    let r = forward_reply(ForwardOutcome::Unreachable);
    assert_eq!(r.status, BAD_GATEWAY);
    assert_eq!(r.status, 502);
    assert_eq!(r.body, b"Local service unavailable".to_vec());
    let r = forward_reply(ForwardOutcome::SendFailed);
    assert_eq!(r.status, 502);
    assert_eq!(r.body, b"Failed to forward request".to_vec());
}

#[test]
fn host_header_added_only_when_absent() {
    let h = with_host_header(vec![("accept".to_string(), b"*/*".to_vec())], &"app.example.com".to_string());
    assert_eq!(h, vec![("accept".to_string(), b"*/*".to_vec()), ("host".to_string(), b"app.example.com".to_vec())]);
    let given = vec![("host".to_string(), vec![0xffu8, b'x'])];
    assert_eq!(with_host_header(given.clone(), &"app.example.com".to_string()), given);
}

#[test]
fn listing_reply() {
    let r = listing_result(TunnelMessage::TunnelList { tunnels: vec!["a.com".to_string()] });
    assert_eq!(r, Ok(vec!["a.com".to_string()]));
    assert_eq!(listing_result(TunnelMessage::List), Err(ClientError::UnexpectedReply));
}

#[test]
fn text_comparison() {
    assert!(same_text("héllo", "héllo"));
    assert!(!same_text("héllo", "hello"));
    assert!(!same_text("a", "ab"));
    assert!(same_text("", ""));
}

#[test]
fn default_config_is_empty() {
    let c = Config::default();
    assert!(c.servers.is_empty());
    assert!(c.default_server.is_none());
    assert!(c.tunnels.is_empty());
    assert_eq!(c.resolve_server("alias"), Err(ConfigError::UnknownServer("alias".to_string())));
}
