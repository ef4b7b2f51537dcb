use onlyati_datastore::hook::{HookManager, HookManagerAction, HookManagerResponse};

#[test]
fn hook_add_remove_list() {
    let mut manager = HookManager::new();

    let result = manager.add(
        "/root/status".to_string(),
        "http://127.0.0.1:3031".to_string(),
    );
    assert_eq!(true, result.is_ok());

    let result = manager.add(
        "/root/status".to_string(),
        "http://127.0.0.1:3032".to_string(),
    );
    assert_eq!(true, result.is_ok());

    let result = manager.add(
        "/root/status".to_string(),
        "http://127.0.0.1:3032".to_string(),
    );
    assert_eq!(true, result.is_err());

    let result = manager.add(
        "/root/status".to_string(),
        "http://127.0.0.1:3033".to_string(),
    );
    assert_eq!(true, result.is_ok());

    let result = manager.add(
        "/root/arpa".to_string(),
        "http://127.0.0.1:3031".to_string(),
    );
    assert_eq!(true, result.is_ok());

    let result = manager.remove(
        "/root/status".to_string(),
        "http://127.0.0.1:3033".to_string(),
    );
    assert_eq!(true, result.is_ok());

    let result = manager.list(&"/root".to_string());
    assert_eq!(2, result.len());

    let result = manager.list(&"/root/stat".to_string());
    assert_eq!(1, result.len());

    let result = manager.list(&"/root/no_exist".to_string());
    assert_eq!(0, result.len());
}

#[test]
fn hook_dispatch_count() {
    let mut manager = HookManager::new();
    manager
        .add("/root/status".to_string(), "http://a".to_string())
        .unwrap();
    manager
        .add("/root/status".to_string(), "http://b".to_string())
        .unwrap();
    manager
        .add("/root/arpa".to_string(), "http://a".to_string())
        .unwrap();

    let links = manager.matching_links(&"/root/status/dns1".to_string());
    assert_eq!(2, links.len());

    let links = manager.matching_links(&"/root/no_exist".to_string());
    assert_eq!(0, links.len());

    let links = manager.matching_links(&"/root/arpa/server1".to_string());
    assert_eq!(1, links.len());
    assert_eq!("http://a", links[0].as_str());
}

#[test]
fn hook_already_defined() {
    let mut manager = HookManager::new();
    assert!(manager
        .add("/root/status".to_string(), "http://a".to_string())
        .is_ok());
    match manager.add("/root/status".to_string(), "http://a".to_string()) {
        Err(HookManagerResponse::Error(m)) => assert_eq!("Already defined", m.as_str()),
        _ => panic!("a duplicate hook must be rejected"),
    }
}

#[test]
fn hook_remove_missing() {
    let mut manager = HookManager::new();
    match manager.remove("/root/status".to_string(), "http://a".to_string()) {
        Err(HookManagerResponse::Error(m)) => assert_eq!("Not found", m.as_str()),
        _ => panic!("removing an unknown hook must be rejected"),
    }
    manager
        .add("/root/status".to_string(), "http://a".to_string())
        .unwrap();
    match manager.remove("/root/status".to_string(), "http://b".to_string()) {
        Err(HookManagerResponse::Error(m)) => assert_eq!("Not found", m.as_str()),
        _ => panic!("removing an unknown link must be rejected"),
    }
}

#[test]
fn hook_get_exact_prefix() {
    let mut manager = HookManager::new();
    manager
        .add("/root/status".to_string(), "http://a".to_string())
        .unwrap();

    match manager.get(&"/root/status".to_string()) {
        Some(links) => {
            assert_eq!(1, links.len());
            assert_eq!("http://a", links[0].as_str());
        }
        None => panic!("registered prefix not found"),
    }

    // get is an exact match, not a scan.
    assert!(manager.get(&"/root".to_string()).is_none());
    assert!(manager.get(&"/root/status/deeper".to_string()).is_none());
}

#[test]
fn hook_list_exact_contents() {
    let mut manager = HookManager::new();
    manager
        .add("/root/status".to_string(), "http://a".to_string())
        .unwrap();
    manager
        .add("/root/arpa".to_string(), "http://b".to_string())
        .unwrap();
    manager
        .add("/other".to_string(), "http://c".to_string())
        .unwrap();

    let listed = manager.list(&"/root".to_string());
    assert_eq!(2, listed.len());
    // Registry order is sorted by prefix.
    assert_eq!("/root/arpa", listed[0].0.as_str());
    assert_eq!("http://b", listed[0].1[0].as_str());
    assert_eq!("/root/status", listed[1].0.as_str());
    assert_eq!("http://a", listed[1].1[0].as_str());
}

#[test]
fn hook_worker_actions() {
    let mut manager = HookManager::new();

    let (reply, posts) = manager.handle_action(HookManagerAction::Add(
        "/root/status".to_string(),
        "http://a".to_string(),
    ));
    assert!(matches!(reply, Some(HookManagerResponse::Done)));
    assert!(posts.is_none());

    let (reply, _) = manager.handle_action(HookManagerAction::Get("/root/status".to_string()));
    match reply {
        Some(HookManagerResponse::Hook(prefix, links)) => {
            assert_eq!("/root/status", prefix.as_str());
            assert_eq!(1, links.len());
        }
        _ => panic!("expected the hook back"),
    }

    let (reply, posts) = manager.handle_action(HookManagerAction::Send(
        "/root/status/dns1".to_string(),
        "okay".to_string(),
    ));
    assert!(reply.is_none());
    match posts {
        Some((key, value, links)) => {
            assert_eq!("/root/status/dns1", key.as_str());
            assert_eq!("okay", value.as_str());
            assert_eq!(1, links.len());
            assert_eq!("http://a", links[0].as_str());
        }
        None => panic!("a send must produce the announcement plan"),
    }

    let (reply, _) = manager.handle_action(HookManagerAction::Get("/nope".to_string()));
    match reply {
        Some(HookManagerResponse::Error(m)) => assert_eq!("Not found", m.as_str()),
        _ => panic!("an unknown prefix must not be found"),
    }
}
