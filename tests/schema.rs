use soulfire::game::{Game, Key, KeyCondition, KeyType, UidConfig, UsernameConfig};
use soulfire::schema::{
    localizations_equal, localizations_in_order, record_equal, records_equal, records_in_order, schemas_equal,
    sort_records, str_less,
    RoleConnectionMetadataRecord, RoleConnectionMetadataRecordType,
};

fn record(key: &str, name: &str) -> RoleConnectionMetadataRecord {
    RoleConnectionMetadataRecord {
        ty: RoleConnectionMetadataRecordType::BoolEq,
        key: key.to_string(),
        name: name.to_string(),
        name_localizations: None,
        description: format!("{} description", name),
        description_localizations: None,
    }
}

fn game() -> Game {
    let key = Key {
        ty: KeyType::BoolEq { conditions: vec![KeyCondition::Uid(0..100)] },
        name: "Verified".to_string(),
        name_localizations: Some(vec![("de".to_string(), "Verifiziert".to_string())]),
        description: "Has a verified account".to_string(),
        description_localizations: None,
    };
    Game {
        name: "Example Game".to_string(),
        main_page: Some("https://example.com".to_string()),
        suffix: "EX".to_string(),
        uid: UidConfig { max_length: 10 },
        username: UsernameConfig { optional: false, max_length: 16 },
        keys: vec![("verified".to_string(), key)],
    }
}

#[test]
fn derived_schema_for_single_key() {
    let records = game().make_role_connection_records();
    assert_eq!(records.len(), 1);
    let r = &records[0];
    assert_eq!(r.ty, RoleConnectionMetadataRecordType::BoolEq);
    assert_eq!(r.ty.code(), 7);
    assert_eq!(r.key, "verified");
    assert_eq!(r.name, "Verified");
    assert_eq!(r.name_localizations, Some(vec![("de".to_string(), "Verifiziert".to_string())]));
    assert_eq!(r.description, "Has a verified account");
    assert_eq!(r.description_localizations, None);
}

#[test]
fn record_type_codes() {
    for c in 1u8..=8 {
        assert_eq!(RoleConnectionMetadataRecordType::from_code(c).unwrap().code(), c);
    }
    assert!(RoleConnectionMetadataRecordType::from_code(0).is_none());
    assert!(RoleConnectionMetadataRecordType::from_code(9).is_none());
    assert_eq!(RoleConnectionMetadataRecordType::IntegerLtEq.code(), 1);
    assert_eq!(RoleConnectionMetadataRecordType::BoolNotEq.code(), 8);
}

#[test]
fn equality_ignores_order() {
    let remote = vec![record("b", "B"), record("a", "A"), record("c", "C")];
    let local = vec![record("c", "C"), record("b", "B"), record("a", "A")];
    assert!(schemas_equal(remote, local));
}

#[test]
fn equality_sees_field_differences() {
    assert!(!schemas_equal(vec![record("a", "A")], vec![record("a", "B")]));
    assert!(!schemas_equal(vec![record("a", "A")], vec![record("a", "A"), record("b", "B")]));
    assert!(schemas_equal(vec![], vec![]));
    let mut other = record("a", "A");
    other.ty = RoleConnectionMetadataRecordType::BoolNotEq;
    assert!(!schemas_equal(vec![record("a", "A")], vec![other]));
}

#[test]
fn absent_localizations_differ_from_empty() {
    let absent = record("a", "A");
    let mut empty = record("a", "A");
    empty.name_localizations = Some(vec![]);
    assert!(!schemas_equal(vec![absent], vec![empty]));
    assert!(!localizations_equal(&None, &Some(vec![])));
    assert!(localizations_equal(&Some(vec![]), &Some(vec![])));
}

#[test]
fn record_and_list_equality() {
    let mut x = record("a", "A");
    x.description_localizations = Some(vec![("fr".to_string(), "une".to_string())]);
    let mut y = record("a", "A");
    y.description_localizations = Some(vec![("fr".to_string(), "deux".to_string())]);
    assert!(!record_equal(&x, &y));
    assert!(record_equal(&x, &x.clone()));
    assert!(records_equal(&vec![x.clone()], &vec![x.clone()]));
    assert!(!records_equal(&vec![x.clone()], &vec![y]));
}

#[test]
fn sort_is_by_key_and_stable() {
    let sorted = sort_records(vec![record("b", "1"), record("a", "2"), record("b", "3"), record("ab", "4")]);
    let names: Vec<&str> = sorted.iter().map(|r| r.name.as_str()).collect();
    assert_eq!(names, vec!["2", "4", "1", "3"]);
}

#[test]
fn key_order_is_lexicographic() {
    assert!(str_less("a", "b"));
    assert!(str_less("", "a"));
    assert!(str_less("ab", "b"));
    assert!(str_less("a", "ab"));
    assert!(!str_less("b", "ab"));
    assert!(!str_less("same", "same"));
    assert!(str_less("Z", "a"));
    assert!(str_less("z", "é"));
}

#[test]
fn derived_schema_matches_itself_reordered() {
    let mut records = game().make_role_connection_records();
    records.push(record("aaa", "first"));
    let mut reversed = game().make_role_connection_records();
    reversed.insert(0, record("aaa", "first"));
    reversed.reverse();
    assert!(schemas_equal(records, reversed));
}

#[test]
fn key_order_check() {
    let mut g = game();
    assert!(g.is_well_formed());
    let second = g.keys[0].1.clone();
    g.keys.push(("zeta".to_string(), second.clone()));
    assert!(g.is_well_formed());
    g.keys.push(("alpha".to_string(), second.clone()));
    assert!(!g.is_well_formed());
    g.keys.pop();
    g.keys.push(("zeta".to_string(), second));
    assert!(!g.is_well_formed());
    g.keys.clear();
    assert!(g.is_well_formed());
}

fn pairs(items: &[(&str, &str)]) -> Option<Vec<(String, String)>> {
    Some(items.iter().map(|(a, b)| (a.to_string(), b.to_string())).collect())
}

#[test]
fn locale_order_check() {
    assert!(localizations_in_order(&None));
    assert!(localizations_in_order(&Some(vec![])));
    assert!(localizations_in_order(&pairs(&[("de", "x"), ("en-US", "y"), ("fr", "z")])));
    assert!(!localizations_in_order(&pairs(&[("fr", "z"), ("de", "x")])));
    assert!(!localizations_in_order(&pairs(&[("de", "x"), ("de", "y")])));
    let mut bad = record("a", "A");
    bad.description_localizations = pairs(&[("fr", "z"), ("de", "x")]);
    assert!(records_in_order(&vec![record("a", "A")]));
    assert!(!records_in_order(&vec![record("a", "A"), bad]));
    let mut g = game();
    g.keys[0].1.name_localizations = pairs(&[("fr", "z"), ("de", "x")]);
    assert!(!g.is_well_formed());
}

#[test]
fn localizations_compare_as_mappings() {
    assert!(localizations_equal(&pairs(&[("de", "x"), ("fr", "y")]), &pairs(&[("de", "x"), ("fr", "y")])));
    assert!(!localizations_equal(&pairs(&[("de", "x"), ("fr", "y")]), &pairs(&[("de", "x"), ("fr", "z")])));
    assert!(!localizations_equal(&pairs(&[("de", "x")]), &pairs(&[("de", "x"), ("fr", "y")])));
    assert!(!localizations_equal(&pairs(&[("de", "x")]), &None));
}
