use soulfire::game::{
    decimal_string, format_platform_username, key_granted, Game, Key, KeyCondition, KeyType, UidConfig,
    UsernameConfig,
};

fn key(conditions: Vec<KeyCondition>) -> Key {
    Key {
        ty: KeyType::BoolEq { conditions },
        name: "Verified".to_string(),
        name_localizations: None,
        description: "Has a verified account".to_string(),
        description_localizations: None,
    }
}

fn game(keys: Vec<(String, Key)>) -> Game {
    Game {
        name: "Example Game".to_string(),
        main_page: None,
        suffix: "EX".to_string(),
        uid: UidConfig { max_length: 10 },
        username: UsernameConfig { optional: true, max_length: 16 },
        keys,
    }
}

fn flags(g: &Game, uid: u64) -> Vec<(String, String)> {
    g.make_role_connection_info(uid, "x").metadata
}

#[test]
fn range_is_half_open() {
    let k = key(vec![KeyCondition::Uid(10..20)]);
    assert!(!key_granted(&k, 9));
    assert!(key_granted(&k, 10));
    assert!(key_granted(&k, 19));
    assert!(!key_granted(&k, 20));
}

#[test]
fn conditions_are_conjoined() {
    let k = key(vec![KeyCondition::Uid(0..100), KeyCondition::Uid(50..60)]);
    assert!(!key_granted(&k, 10));
    assert!(key_granted(&k, 55));
    assert!(key_granted(&key(vec![]), 12345));
    assert!(!key_granted(&key(vec![KeyCondition::Uid(5..5)]), 5));
}

#[test]
fn username_formatting() {
    let g = game(vec![]);
    assert_eq!(g.make_role_connection_info(42, "").platform_username, "42");
    assert_eq!(g.make_role_connection_info(42, "Bob").platform_username, "Bob (42)");
    assert_eq!(format_platform_username(0, ""), "0");
    assert_eq!(format_platform_username(7, "Ünï"), "Ünï (7)");
}

#[test]
fn decimal_text() {
    assert_eq!(decimal_string(0), "0");
    assert_eq!(decimal_string(9), "9");
    assert_eq!(decimal_string(10), "10");
    assert_eq!(decimal_string(1234567890), "1234567890");
    assert_eq!(decimal_string(u64::MAX), "18446744073709551615");
}

#[test]
fn end_to_end_single_key() {
    let g = game(vec![("verified".to_string(), key(vec![KeyCondition::Uid(0..100)]))]);
    let info = g.make_role_connection_info(50, "x");
    assert_eq!(info.platform_name, "Example Game");
    assert_eq!(info.platform_username, "x (50)");
    assert_eq!(info.metadata, vec![("verified".to_string(), "1".to_string())]);
    assert_eq!(flags(&g, 500), vec![("verified".to_string(), "0".to_string())]);
}

#[test]
fn evaluation_is_repeatable() {
    let g = game(vec![
        ("a".to_string(), key(vec![KeyCondition::Uid(0..10)])),
        ("b".to_string(), key(vec![KeyCondition::Uid(5..15)])),
    ]);
    assert_eq!(g.make_role_connection_info(7, "n"), g.make_role_connection_info(7, "n"));
    assert_eq!(
        flags(&g, 7),
        vec![("a".to_string(), "1".to_string()), ("b".to_string(), "1".to_string())]
    );
    assert_eq!(
        flags(&g, 12),
        vec![("a".to_string(), "0".to_string()), ("b".to_string(), "1".to_string())]
    );
}

#[test]
fn key_condition_clone() {
    let c = KeyCondition::Uid(3..8);
    assert_eq!(c.clone(), KeyCondition::Uid(3..8));
}
