use safaribooks::cookies::{CookieJson, CookieJsonItem};
use safaribooks::{CookieEntry, CookieStore};

fn entry(name: &str, value: &str) -> CookieEntry {
    CookieEntry { name: name.to_string(), value: value.to_string() }
}

#[test]
fn store_sorts_names() {
    let store = CookieStore::from_entries(vec![entry("sess", "abc"), entry("OptanonConsent", "xyz")]);
    assert_eq!(store.len(), 2);
    assert_eq!(
        store.cookie_names(),
        vec!["OptanonConsent".to_string(), "sess".to_string()]
    );
    assert_eq!(store.to_header_value(), "OptanonConsent=xyz; sess=abc");
}

#[test]
fn later_entry_of_a_name_wins() {
    let store = CookieStore::from_entries(vec![entry("sess", "OLD"), entry("sess", "NEW")]);
    assert_eq!(store.len(), 1);
    assert_eq!(store.to_header_value(), "sess=NEW");
}

#[test]
fn header_of_two_pairs() {
    let store = CookieStore::from_entries(vec![entry("b", "2"), entry("a", "1")]);
    assert_eq!(store.to_header_value(), "a=1; b=2");
}

#[test]
fn empty_store() {
    let store = CookieStore::from_entries(vec![]);
    assert!(store.is_empty());
    assert_eq!(store.len(), 0);
    assert_eq!(store.to_header_value(), "");
    assert!(store.cookie_names().is_empty());
}

#[test]
fn insert_replaces_value() {
    let mut store = CookieStore::new();
    store.insert("z".to_string(), "1".to_string());
    store.insert("a".to_string(), "2".to_string());
    store.insert("z".to_string(), "3".to_string());
    assert_eq!(store.to_header_value(), "a=2; z=3");
}

#[test]
fn names_sort_by_bytes() {
    let store = CookieStore::from_entries(vec![
        entry("é", "1"),
        entry("e", "2"),
        entry("Z", "3"),
        entry("ee", "4"),
    ]);
    assert_eq!(store.to_header_value(), "Z=3; e=2; ee=4; é=1");
}

fn field(k: &str, v: &str) -> (String, Option<String>) {
    (k.to_string(), Some(v.to_string()))
}

#[test]
fn loads_from_map() {
    let v = CookieJson::Object(vec![field("sess", "abc"), field("OptanonConsent", "xyz")]);
    let store = CookieStore::from_json(&v).unwrap();
    assert_eq!(store.len(), 2);
    let names = store.cookie_names();
    assert_eq!(
        names,
        vec!["OptanonConsent".to_string(), "sess".to_string()]
    );
    let header = store.to_header_value();
    assert_eq!(header, "OptanonConsent=xyz; sess=abc");
}

#[test]
fn loads_from_list() {
    let v = CookieJson::List(vec![
        CookieJsonItem::Object(vec![field("name", "sess"), field("value", "abc")]),
        CookieJsonItem::Object(vec![
            field("name", "OptanonConsent"),
            field("value", "xyz"),
            field("domain", "learning.oreilly.com"),
        ]),
    ]);
    let store = CookieStore::from_json(&v).unwrap();
    assert_eq!(store.len(), 2);
    assert_eq!(store.cookie_names(), vec!["OptanonConsent", "sess"]);
    assert_eq!(store.to_header_value(), "OptanonConsent=xyz; sess=abc");
}

#[test]
fn duplicate_names_keep_last() {
    let v = CookieJson::List(vec![
        CookieJsonItem::Object(vec![field("name", "sess"), field("value", "OLD")]),
        CookieJsonItem::Object(vec![field("name", "sess"), field("value", "NEW")]),
    ]);
    let store = CookieStore::from_json(&v).unwrap();
    assert_eq!(store.len(), 1);
    assert_eq!(store.to_header_value(), "sess=NEW");
}

#[test]
fn invalid_json_fails() {
    let v = CookieJson::Other;
    let err = CookieStore::from_json(&v).unwrap_err();
    let msg = err.to_string();
    assert!(msg.to_lowercase().contains("did not match any variant"));
}

#[test]
fn object_with_non_string_value_fails() {
    let v = CookieJson::Object(vec![field("a", "1"), ("b".to_string(), None)]);
    assert!(CookieStore::from_json(&v).is_err());
}

#[test]
fn list_entry_without_value_fails() {
    let v = CookieJson::List(vec![CookieJsonItem::Object(vec![field("name", "sess")])]);
    assert!(CookieStore::from_json(&v).is_err());
    let w = CookieJson::List(vec![CookieJsonItem::Other]);
    assert!(CookieStore::from_json(&w).is_err());
}

#[test]
fn list_entry_as_pair_of_strings() {
    let v = CookieJson::List(vec![
        CookieJsonItem::List(vec![Some("a".to_string()), Some("1".to_string())]),
        CookieJsonItem::Object(vec![field("value", "2"), field("name", "b")]),
    ]);
    let store = CookieStore::from_json(&v).unwrap();
    assert_eq!(store.to_header_value(), "a=1; b=2");
    let bad = CookieJson::List(vec![CookieJsonItem::List(vec![Some("a".to_string())])]);
    assert!(CookieStore::from_json(&bad).is_err());
}

#[test]
fn empty_shapes_give_empty_stores() {
    assert!(CookieStore::from_json(&CookieJson::Object(vec![])).unwrap().is_empty());
    assert!(CookieStore::from_json(&CookieJson::List(vec![])).unwrap().is_empty());
}
