use defguard_core::authentication_key::{AuthenticationKey, AuthenticationKeyType, KeyQuery};
use defguard_core::{Id, NoId};

fn key(id: Id, user_id: Id, key_type: AuthenticationKeyType) -> AuthenticationKey<Id> {
    AuthenticationKey {
        id,
        yubikey_id: None,
        name: None,
        user_id,
        key: format!("key {id}"),
        key_type,
    }
}

fn keys() -> Vec<AuthenticationKey<Id>> {
    vec![
        key(1, 7, AuthenticationKeyType::Ssh),
        key(2, 8, AuthenticationKeyType::Ssh),
        key(3, 7, AuthenticationKeyType::Gpg),
        key(4, 7, AuthenticationKeyType::Ssh),
    ]
}

fn ids(keys: &[AuthenticationKey<Id>]) -> Vec<Id> {
    keys.iter().map(|key| key.id).collect()
}

#[test]
fn new_key_has_no_id() {
    let key = AuthenticationKey::new(
        7,
        "ssh-ed25519 AAAA".to_string(),
        Some("laptop".to_string()),
        AuthenticationKeyType::Ssh,
        Some(3),
    );
    assert_eq!(key.id, NoId);
    assert_eq!(key.user_id, 7);
    assert_eq!(key.key, "ssh-ed25519 AAAA");
    assert_eq!(key.name, Some("laptop".to_string()));
    assert_eq!(key.key_type, AuthenticationKeyType::Ssh);
    assert_eq!(key.yubikey_id, Some(3));
}

#[test]
fn key_types_have_lowercase_labels() {
    assert_eq!(AuthenticationKeyType::Ssh.as_str(), "ssh");
    assert_eq!(AuthenticationKeyType::Gpg.as_str(), "gpg");
}

#[test]
fn find_by_user_id_asks_for_one_type() {
    let query = AuthenticationKey::<Id>::find_by_user_id(7, Some(AuthenticationKeyType::Gpg));
    assert_eq!(query, KeyQuery { user_id: 7, key_type: Some(AuthenticationKeyType::Gpg) });
    assert_eq!(
        query.sql(),
        "SELECT id, user_id, yubikey_id \"yubikey_id?\", key, \
        name, key_type \"key_type: AuthenticationKeyType\" \
        FROM authentication_key WHERE user_id = $1 AND key_type = $2"
    );
    assert_eq!(ids(&query.select(keys())), [3]);
}

#[test]
fn find_by_user_id_asks_for_all_types() {
    let query = AuthenticationKey::<Id>::find_by_user_id(7, None);
    assert_eq!(
        query.sql(),
        "SELECT id, user_id, yubikey_id \"yubikey_id?\", key, \
        name, key_type \"key_type: AuthenticationKeyType\" \
        FROM authentication_key WHERE user_id = $1"
    );
    assert_eq!(ids(&query.select(keys())), [1, 3, 4]);
    assert_eq!(ids(&AuthenticationKey::<Id>::find_by_user_id(9, None).select(keys())), []);
}

#[test]
fn type_narrows_the_search() {
    let narrow = AuthenticationKey::<Id>::find_by_user_id(7, Some(AuthenticationKeyType::Ssh));
    let wide = AuthenticationKey::<Id>::find_by_user_id(7, None);
    let mut found = wide.select(keys());
    found.retain(|key| key.key_type == AuthenticationKeyType::Ssh);
    assert_eq!(ids(&narrow.select(keys())), ids(&found));
}

#[test]
fn types_part_the_search() {
    let ssh = AuthenticationKey::<Id>::find_by_user_id(7, Some(AuthenticationKeyType::Ssh));
    let gpg = AuthenticationKey::<Id>::find_by_user_id(7, Some(AuthenticationKeyType::Gpg));
    let all = AuthenticationKey::<Id>::find_by_user_id(7, None);
    let mut parts = ids(&ssh.select(keys()));
    parts.extend(ids(&gpg.select(keys())));
    parts.sort();
    assert_eq!(parts, ids(&all.select(keys())));
}
