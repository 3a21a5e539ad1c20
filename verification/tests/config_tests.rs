use porthannis::config::{default_log_dir, ConfigStore};
use porthannis::error::Error;
use porthannis::models::{ConfigFile, EntryRequest};

fn empty_store() -> ConfigStore {
    ConfigStore::from_parts("/tmp/porthannis-test/config.json".to_string(), ConfigFile { entries: Vec::new() })
}

fn request(name: &str, source_address: &str, source_port: u16, target_address: &str, target_port: u16, enabled: bool) -> EntryRequest {
    EntryRequest {
        name: name.into(),
        source_address: source_address.into(),
        source_port,
        target_address: target_address.into(),
        target_port,
        log_directory: None,
        enabled,
    }
}

#[test]
fn test_add_and_find_entry() {
    let mut store = empty_store();
    let entry = store.add_entry(request("test", "127.0.0.1", 8080, "10.0.0.1", 80, true));

    assert_eq!(entry.name, "test");
    assert_eq!(entry.source_port, 8080);

    let found = store.find_entry(entry.id).unwrap();
    assert_eq!(found.name, "test");
}

#[test]
fn test_update_entry() {
    let mut store = empty_store();
    let entry = store.add_entry(request("original", "127.0.0.1", 8080, "10.0.0.1", 80, true));

    let updated = store
        .update_entry(entry.id, request("updated", "0.0.0.0", 9090, "10.0.0.2", 443, false))
        .unwrap();

    assert_eq!(updated.name, "updated");
    assert_eq!(updated.source_port, 9090);
    assert!(!updated.enabled);
}

#[test]
fn test_remove_entry() {
    let mut store = empty_store();
    let entry = store.add_entry(request("to_delete", "127.0.0.1", 8080, "10.0.0.1", 80, true));

    let removed = store.remove_entry(entry.id).unwrap();
    assert_eq!(removed.id, entry.id);
    assert!(store.find_entry(entry.id).is_err());
}

#[test]
fn test_not_found() {
    let store = empty_store();
    let result = store.find_entry(0x1234_5678_9abc_4def_8123_4567_89ab_cdef);
    assert!(result.is_err());
}

#[test]
fn add_keeps_order_and_derives_log_directory() {
    let mut store = empty_store();
    let a = store.add_entry(request("web server", "0.0.0.0", 8080, "10.0.0.1", 80, true));
    let b = store.add_entry(request("ssh", "0.0.0.0", 2222, "10.0.0.2", 22, false));
    assert_eq!(store.entries().len(), 2);
    assert_eq!(store.entries()[0].id, a.id);
    assert_eq!(store.entries()[1].id, b.id);
    assert_eq!(a.log_directory, "/tmp/porthannis-test/logs/web_server");
    assert_eq!(a.created_at, a.updated_at);
    // a UUID of version 4
    assert_eq!((a.id >> 76) & 0xf, 4);
    assert_eq!((a.id >> 62) & 0x3, 2);
}

#[test]
fn explicit_log_directory_is_kept_on_create_and_update() {
    let mut store = empty_store();
    let mut req = request("x", "0.0.0.0", 1, "h", 2, true);
    req.log_directory = Some("/var/log/x".to_string());
    let e = store.add_entry(req);
    assert_eq!(e.log_directory, "/var/log/x");
    let u = store.update_entry(e.id, request("y", "0.0.0.0", 1, "h", 2, true)).unwrap();
    assert_eq!(u.log_directory, "/var/log/x");
    assert_eq!(u.id, e.id);
    assert_eq!(u.created_at, e.created_at);
}

#[test]
fn update_and_remove_of_unknown_id_fail() {
    let mut store = empty_store();
    match store.update_entry(7, request("y", "0.0.0.0", 1, "h", 2, true)) {
        Err(Error::NotFound(id)) => assert_eq!(id, 7),
        _ => panic!("expected NotFound"),
    }
    assert!(matches!(store.remove_entry(7), Err(Error::NotFound(7))));
}

#[test]
fn find_entry_mut_changes_the_stored_entry() {
    let mut store = empty_store();
    let e = store.add_entry(request("x", "0.0.0.0", 1, "h", 2, true));
    store.find_entry_mut(e.id).unwrap().enabled = false;
    assert!(!store.find_entry(e.id).unwrap().enabled);
}

#[test]
fn default_log_dir_sits_beside_the_config_file() {
    assert_eq!(default_log_dir("/etc/porthannis/config.json", "a/b c"), "/etc/porthannis/logs/a_b_c");
    assert_eq!(default_log_dir("config.json", "web"), "logs/web");
}

#[test]
fn update_then_find_gives_updated_entry() {
    let mut store = empty_store();
    let a = store.add_entry(request("a", "0.0.0.0", 1, "h", 2, true));
    let b = store.add_entry(request("b", "0.0.0.0", 3, "h", 4, true));
    store.update_entry(a.id, request("a2", "0.0.0.0", 5, "h", 6, false)).unwrap();
    let found = store.find_entry(a.id).unwrap();
    assert_eq!(found.name, "a2");
    assert_eq!(found.source_port, 5);
    assert_eq!(store.entries()[0].id, a.id);
    assert_eq!(store.entries()[1].id, b.id);
}
