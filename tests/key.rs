use drm_monitor::key::{hash_controller_path, ConnectorKey};

#[test]
fn same_inputs_give_same_key() {
    assert_eq!(ConnectorKey::new("/dev/dri/card0", 42), ConnectorKey::new("/dev/dri/card0", 42));
}

#[test]
fn key_holds_path_hash_and_id() {
    let k = ConnectorKey::new("/dev/dri/card1", 7);
    assert_eq!(k.connector_id, 7);
    assert_eq!(k.card_hash, hash_controller_path("/dev/dri/card1"));
}

#[test]
fn different_ids_give_different_keys() {
    assert_ne!(ConnectorKey::new("/dev/dri/card0", 1), ConnectorKey::new("/dev/dri/card0", 2));
}

#[test]
fn same_id_on_two_controllers_gives_two_keys() {
    let a = ConnectorKey::new("/dev/dri/card0", 1);
    let b = ConnectorKey::new("/dev/dri/card1", 1);
    assert_ne!(a.card_hash, b.card_hash);
    assert_ne!(a, b);
}

#[test]
fn path_hash_depends_on_path() {
    assert_eq!(hash_controller_path(""), hash_controller_path(""));
    assert_ne!(hash_controller_path("/dev/dri/card0"), hash_controller_path("/dev/dri/card00"));
}
