use aetherlink::client::{client_step, registration_result, register_request, ClientAction, ClientError, ClientEvent, ClientState};
use aetherlink::codec::{decode, encode};
use aetherlink::config::Auth;
use aetherlink::forward::{forward_reply, ForwardOutcome};
use aetherlink::registry::Registry;
use aetherlink::server::{admin_route, admin_status, AdminRoute, Session, StreamAction};
use aetherlink::tunnel::TunnelMessage;

fn register(domain: &str, port: u16) -> TunnelMessage {
    TunnelMessage::Register { domain: domain.to_string(), port }
}

#[test]
fn unauthorized_client_is_refused() {
    let mut auth = Auth::new();
    auth.authorize("good");
    assert!(Session::accept(&auth, "bad".to_string(), 1).is_none());
    assert!(Session::accept(&auth, "good".to_string(), 2).is_some());
}

#[test]
fn revoked_client_is_refused_on_next_connection() {
    let mut auth = Auth::new();
    auth.authorize("c1");
    auth.authorize("c1");
    let live = Session::accept(&auth, "c1".to_string(), 3).unwrap();
    auth.revoke("c1");
    auth.revoke("c1");
    assert!(!auth.is_authorized("c1"));
    assert!(Session::accept(&auth, "c1".to_string(), 4).is_none());
    let mut reg = Registry::new();
    assert!(matches!(live.handle(&mut reg, register("x.com", 1), 0), Some(TunnelMessage::Registered { .. })));
}

#[test]
fn register_then_conflict_replies() {
    let mut auth = Auth::new();
    auth.authorize("c1");
    auth.authorize("c2");
    let s1 = Session::accept(&auth, "c1".to_string(), 5).unwrap();
    let s2 = Session::accept(&auth, "c2".to_string(), 6).unwrap();
    let mut reg = Registry::new();
    match s1.handle(&mut reg, register("a.com", 80), 0) {
        Some(TunnelMessage::Registered { domain }) => assert_eq!(domain, "a.com"),
        _ => panic!("expected Registered"),
    }
    match s2.handle(&mut reg, register("a.com", 81), 0) {
        Some(TunnelMessage::Error { message }) => assert_eq!(message, "Domain a.com is already in use"),
        _ => panic!("expected Error"),
    }
    assert_eq!(reg.get_tunnel("a.com").unwrap().client_id, "c1");
}

#[test]
fn two_clients_list_only_their_own() {
    let mut auth = Auth::new();
    auth.authorize("c1");
    auth.authorize("c2");
    let s1 = Session::accept(&auth, "c1".to_string(), 7).unwrap();
    let s2 = Session::accept(&auth, "c2".to_string(), 8).unwrap();
    let mut reg = Registry::new();
    s1.handle(&mut reg, register("a.com", 1), 0);
    s2.handle(&mut reg, register("c.com", 3), 0);
    s1.handle(&mut reg, register("b.com", 2), 0);
    match s1.handle(&mut reg, TunnelMessage::List, 0) {
        Some(TunnelMessage::TunnelList { tunnels }) => assert_eq!(tunnels, vec!["a.com".to_string(), "b.com".to_string()]),
        _ => panic!("expected TunnelList"),
    }
    match s2.handle(&mut reg, TunnelMessage::List, 0) {
        Some(TunnelMessage::TunnelList { tunnels }) => assert_eq!(tunnels, vec!["c.com".to_string()]),
        _ => panic!("expected TunnelList"),
    }
}

#[test]
fn unregister_replies_even_when_absent() {
    let mut auth = Auth::new();
    auth.authorize("c1");
    let s1 = Session::accept(&auth, "c1".to_string(), 9).unwrap();
    let mut reg = Registry::new();
    match s1.handle(&mut reg, TunnelMessage::Unregister { domain: "z.com".to_string() }, 0) {
        Some(TunnelMessage::Unregistered { domain }) => assert_eq!(domain, "z.com"),
        _ => panic!("expected Unregistered"),
    }
}

#[test]
fn other_messages_are_ignored() {
    let mut auth = Auth::new();
    auth.authorize("c1");
    let s1 = Session::accept(&auth, "c1".to_string(), 10).unwrap();
    let mut reg = Registry::new();
    assert!(s1.handle(&mut reg, TunnelMessage::Registered { domain: "a.com".to_string() }, 0).is_none());
    assert!(reg.list_tunnels().is_empty());
}

#[test]
fn end_to_end_register_route_and_answer() {
    let mut auth = Auth::new();
    auth.authorize("client-1");
    let session = Session::accept(&auth, "client-1".to_string(), 11).unwrap();
    let mut reg = Registry::new();

    // client side: connect, then send Register over the wire
    let (state, action) = client_step(ClientState::Connecting, ClientEvent::Connected);
    assert_eq!(state, ClientState::Registering);
    assert_eq!(action, ClientAction::SendRegister);
    let wire = encode(&register_request(&"app.example.com".to_string(), 8080)).unwrap();

    // server side: decode, handle, encode the reply
    let request = decode(&wire).unwrap();
    let reply = session.handle(&mut reg, request, 100).unwrap();
    let reply_wire = encode(&reply).unwrap();

    // client side: the reply makes the tunnel active
    let reply = decode(&reply_wire).unwrap();
    let (state, action) = client_step(ClientState::Registering, ClientEvent::Reply(reply));
    assert_eq!(state, ClientState::Active);
    assert_eq!(action, ClientAction::StartProxy);

    // a visitor's request for the domain is routed to that client and port
    let rec = reg.get_tunnel("app.example.com").unwrap();
    assert_eq!(rec.client_id, "client-1");
    assert_eq!(rec.target_port, 8080);

    // the stub on 8080 answers 200 "hi"; the visitor sees it unchanged
    let answer = forward_reply(ForwardOutcome::Answered {
        status: 200,
        headers: vec![("content-type".to_string(), b"text/plain".to_vec())],
        body: b"hi".to_vec(),
    });
    assert_eq!(answer.status, 200);
    assert_eq!(answer.body, b"hi".to_vec());
    assert_eq!(answer.headers, vec![("content-type".to_string(), b"text/plain".to_vec())]);
}

#[test]
fn client_rejected_registration_fails() {
    let reply = TunnelMessage::Error { message: "Domain a.com is already in use".to_string() };
    let (state, action) = client_step(ClientState::Registering, ClientEvent::Reply(reply));
    assert_eq!(state, ClientState::Closed);
    assert_eq!(action, ClientAction::Fail(ClientError::Rejected("Domain a.com is already in use".to_string())));
}

#[test]
fn client_unexpected_reply_fails() {
    assert_eq!(registration_result(TunnelMessage::List), Err(ClientError::UnexpectedReply));
    let (state, action) = client_step(ClientState::Registering, ClientEvent::Reply(TunnelMessage::List));
    assert_eq!(state, ClientState::Closed);
    assert_eq!(action, ClientAction::Fail(ClientError::UnexpectedReply));
}

#[test]
fn client_shutdown_unregisters_then_finishes() {
    let (state, action) = client_step(ClientState::Active, ClientEvent::Interrupted);
    assert_eq!(state, ClientState::ShuttingDown);
    assert_eq!(action, ClientAction::SendUnregister);
    let (state, action) = client_step(state, ClientEvent::UnregisterDone);
    assert_eq!(state, ClientState::Closed);
    assert_eq!(action, ClientAction::Finish);
    let (state, action) = client_step(ClientState::Connecting, ClientEvent::ConnectFailed);
    assert_eq!(state, ClientState::Closed);
    assert_eq!(action, ClientAction::Fail(ClientError::ConnectFailed));
    let (state, action) = client_step(ClientState::Active, ClientEvent::Connected);
    assert_eq!(state, ClientState::Active);
    assert_eq!(action, ClientAction::Ignore);
}

#[test]
fn admin_routes() {
    assert_eq!(admin_route("GET", "/health"), AdminRoute::Health);
    assert_eq!(admin_route("GET", "/tunnels"), AdminRoute::Tunnels);
    assert_eq!(admin_route("POST", "/health"), AdminRoute::NotFound);
    assert_eq!(admin_route("GET", "/other"), AdminRoute::NotFound);
    assert_eq!(admin_status(AdminRoute::Health), 200);
    assert_eq!(admin_status(AdminRoute::NotFound), 404);
}

#[test]
fn closing_one_session_keeps_the_other_sessions_tunnels() {
    let mut auth = Auth::new();
    auth.authorize("c1");
    let tunnel_session = Session::accept(&auth, "c1".to_string(), 10).unwrap();
    let list_session = Session::accept(&auth, "c1".to_string(), 11).unwrap();
    let mut reg = Registry::new();
    tunnel_session.handle(&mut reg, register("app.example.com", 8080), 0);
    list_session.handle(&mut reg, register("other.example.com", 9090), 0);
    list_session.close(&mut reg);
    assert_eq!(reg.get_tunnel("app.example.com").unwrap().target_port, 8080);
    assert!(reg.get_tunnel("other.example.com").is_none());
    tunnel_session.close(&mut reg);
    assert!(reg.list_tunnels().is_empty());
}

#[test]
fn stream_input_decides_the_connection_step() {
    let mut auth = Auth::new();
    auth.authorize("c1");
    let s = Session::accept(&auth, "c1".to_string(), 1).unwrap();
    let mut reg = Registry::new();
    let request = encode(&register("a.com", 80)).unwrap();
    match s.serve_stream(&mut reg, &request, 7) {
        StreamAction::Send(bytes) => match decode(&bytes).unwrap() {
            TunnelMessage::Registered { domain } => assert_eq!(domain, "a.com"),
            _ => panic!("expected Registered"),
        },
        _ => panic!("expected a reply"),
    }
    assert_eq!(reg.get_tunnel("a.com").unwrap().created_at, 7);
    assert!(matches!(s.serve_stream(&mut reg, &[9, 9], 0), StreamAction::Drop));
    let ignored = encode(&TunnelMessage::Registered { domain: "x".to_string() }).unwrap();
    assert!(matches!(s.serve_stream(&mut reg, &ignored, 0), StreamAction::Drop));
    let big = vec![4u8; aetherlink::codec::MAX_MESSAGE_SIZE + 1];
    assert!(matches!(s.serve_stream(&mut reg, &big, 0), StreamAction::Close));
    assert_eq!(reg.list_tunnels().len(), 1);
}

#[test]
fn oversized_error_reply_is_replaced() {
    let mut auth = Auth::new();
    auth.authorize("c1");
    let s = Session::accept(&auth, "c1".to_string(), 1).unwrap();
    let mut reg = Registry::new();
    let domain = "d".repeat(aetherlink::codec::MAX_MESSAGE_SIZE - 10);
    let request = encode(&register(&domain, 80)).unwrap();
    assert!(matches!(s.serve_stream(&mut reg, &request, 0), StreamAction::Send(_)));
    match s.serve_stream(&mut reg, &request, 0) {
        StreamAction::Send(bytes) => match decode(&bytes).unwrap() {
            TunnelMessage::Error { message } => assert_eq!(message, "Reply too large"),
            _ => panic!("expected Error"),
        },
        _ => panic!("expected a reply"),
    }
}

#[test]
fn list_reply_survives_the_wire() {
    let tunnels = vec!["a.com".to_string(), "b.com".to_string()];
    let bytes = encode(&TunnelMessage::TunnelList { tunnels: tunnels.clone() }).unwrap();
    assert_eq!(aetherlink::client::listing_result(decode(&bytes).unwrap()), Ok(tunnels));
    let bytes = encode(&TunnelMessage::TunnelList { tunnels: vec![] }).unwrap();
    assert_eq!(aetherlink::client::listing_result(decode(&bytes).unwrap()), Ok(vec![]));
}
