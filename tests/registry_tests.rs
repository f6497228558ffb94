use aetherlink::registry::{Registry, RegistryError};

#[test]
fn second_registration_of_a_domain_loses() {
    let mut r = Registry::new();
    assert_eq!(r.register_tunnel("d.com".to_string(), "c1".to_string(), 0, 1000, 5), Ok(()));
    assert_eq!(r.register_tunnel("d.com".to_string(), "c2".to_string(), 0, 2000, 6), Err(RegistryError::DomainInUse));
    let rec = r.get_tunnel("d.com").unwrap();
    assert_eq!(rec.client_id, "c1");
    assert_eq!(rec.target_port, 1000);
    assert_eq!(rec.created_at, 5);
    assert_eq!(r.list_tunnels().len(), 1);
}

#[test]
fn same_owner_cannot_register_twice() {
    let mut r = Registry::new();
    assert!(r.register_tunnel("d.com".to_string(), "c1".to_string(), 0, 1000, 0).is_ok());
    assert_eq!(r.register_tunnel("d.com".to_string(), "c1".to_string(), 0, 1000, 0), Err(RegistryError::DomainInUse));
}

#[test]
fn domains_are_case_sensitive() {
    let mut r = Registry::new();
    assert!(r.register_tunnel("A.com".to_string(), "c1".to_string(), 0, 1, 0).is_ok());
    assert!(r.register_tunnel("a.com".to_string(), "c2".to_string(), 0, 2, 0).is_ok());
    assert_eq!(r.list_tunnels().len(), 2);
}

#[test]
fn unregister_absent_is_silent_and_twice_is_once() {
    let mut r = Registry::new();
    assert!(!r.unregister_tunnel("none.com"));
    assert!(r.register_tunnel("a.com".to_string(), "c1".to_string(), 0, 1, 0).is_ok());
    assert!(r.register_tunnel("b.com".to_string(), "c1".to_string(), 0, 2, 0).is_ok());
    assert!(r.unregister_tunnel("a.com"));
    let once: Vec<String> = r.domains(None);
    assert!(!r.unregister_tunnel("a.com"));
    assert_eq!(r.domains(None), once);
    assert_eq!(once, vec!["b.com".to_string()]);
    assert!(r.get_tunnel("a.com").is_none());
}

#[test]
fn reregister_after_unregister() {
    let mut r = Registry::new();
    assert!(r.register_tunnel("a.com".to_string(), "c1".to_string(), 0, 1, 0).is_ok());
    r.unregister_tunnel("a.com");
    assert!(r.register_tunnel("a.com".to_string(), "c2".to_string(), 0, 9, 1).is_ok());
    assert_eq!(r.get_tunnel("a.com").unwrap().client_id, "c2");
}

#[test]
fn listing_is_filtered_by_owner() {
    let mut r = Registry::new();
    assert!(r.register_tunnel("a.com".to_string(), "c1".to_string(), 0, 1, 0).is_ok());
    assert!(r.register_tunnel("c.com".to_string(), "c2".to_string(), 0, 3, 0).is_ok());
    assert!(r.register_tunnel("b.com".to_string(), "c1".to_string(), 0, 2, 0).is_ok());
    assert_eq!(r.domains(Some("c1")), vec!["a.com".to_string(), "b.com".to_string()]);
    assert_eq!(r.domains(Some("c2")), vec!["c.com".to_string()]);
    assert_eq!(r.domains(Some("c3")), Vec::<String>::new());
    assert_eq!(r.domains(None).len(), 3);
}

#[test]
fn releasing_a_connection_drops_only_its_tunnels() {
    let mut r = Registry::new();
    assert!(r.register_tunnel("a.com".to_string(), "c1".to_string(), 1, 1, 0).is_ok());
    assert!(r.register_tunnel("c.com".to_string(), "c2".to_string(), 2, 3, 0).is_ok());
    assert!(r.register_tunnel("b.com".to_string(), "c1".to_string(), 3, 2, 0).is_ok());
    r.release_connection(1);
    assert_eq!(r.domains(None), vec!["c.com".to_string(), "b.com".to_string()]);
    assert!(r.register_tunnel("a.com".to_string(), "c3".to_string(), 4, 4, 1).is_ok());
}
