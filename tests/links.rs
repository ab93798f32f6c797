use shortlink::codec::{encode, significant_bytes};
use shortlink::db::{
    add_short_link, add_short_link_using, delete_short_link, get_next_id, get_short_link,
    LinkStore, Model, StoreError,
};

fn add(store: &mut LinkStore, id: u32) -> Model {
    add_short_link(store, format!("http://example.com/test{}", id), None).unwrap()
}

#[test]
fn test_insert() {
    let mut store = LinkStore::new();

    let id = get_next_id(&store).unwrap();
    let model = add(&mut store, id);

    assert_eq!(model.short.clone(), add(&mut store, id).short);

    assert_eq!(
        get_short_link(&store, model.short.clone()).unwrap().id,
        model.id
    );

    delete_short_link(&mut store, model.short);
}

#[test]
fn codes_of_small_ids() {
    assert_eq!(encode(0), "");
    assert_eq!(encode(1), "94");
    assert_eq!(encode(2), "A4");
    assert_eq!(encode(255), "F8");
    assert_eq!(encode(256), "A7H");
    assert_eq!(encode(u32::MAX), "7OUKN9");
    assert_eq!(encode(7), base_62::encode(&[7u8]));
    assert_eq!(encode(0x0102), base_62::encode(&[1u8, 2u8]));
    assert_ne!(encode(1), encode(2));
}

#[test]
fn significant_bytes_drop_leading_zeros() {
    assert_eq!(significant_bytes(0), Vec::<u8>::new());
    assert_eq!(significant_bytes(1), vec![1u8]);
    assert_eq!(significant_bytes(0x0001_0200), vec![1u8, 2u8, 0u8]);
    assert_eq!(significant_bytes(u32::MAX), vec![255u8; 4]);
}

#[test]
fn scenario_on_empty_store() {
    let mut store = LinkStore::new();
    let url = String::from("http://example.com/a");
    let m = add_short_link(&mut store, url.clone(), None).unwrap();
    assert_eq!(m.id, Some(1));
    assert_eq!(m.short, encode(1));
    assert_eq!(m.link, url);

    let again = add_short_link(&mut store, url.clone(), None).unwrap();
    assert_eq!(again.id, m.id);
    assert_eq!(again.short, m.short);
    assert_eq!(again.link, m.link);

    let found = get_short_link(&store, encode(1)).unwrap();
    assert_eq!(found.id, Some(1));
    assert_eq!(found.link, url);

    delete_short_link(&mut store, encode(1));
    assert!(get_short_link(&store, encode(1)).is_none());
}

#[test]
fn resubmission_ignores_custom() {
    let mut store = LinkStore::new();
    let m = add_short_link(&mut store, "http://x.org".to_string(), None).unwrap();
    let again =
        add_short_link(&mut store, "http://x.org".to_string(), Some("mine".to_string())).unwrap();
    assert_eq!(again.short, m.short);
    assert_eq!(again.id, m.id);
    assert!(get_short_link(&store, "mine".to_string()).is_none());
}

#[test]
fn distinct_urls_get_distinct_codes() {
    let mut store = LinkStore::new();
    let a = add_short_link(&mut store, "http://a".to_string(), None).unwrap();
    let b = add_short_link(&mut store, "http://b".to_string(), Some("bee".to_string())).unwrap();
    let c = add_short_link(&mut store, "http://c".to_string(), None).unwrap();
    assert_ne!(a.short, b.short);
    assert_ne!(b.short, c.short);
    assert_ne!(a.short, c.short);
    assert_eq!(b.short, "bee");
    assert_eq!(c.id, Some(3));
    assert_eq!(c.short, encode(3));
}

#[test]
fn round_trip_keeps_url() {
    let mut store = LinkStore::new();
    let url = "https://example.com/some/long/path?q=1".to_string();
    let r = add_short_link(&mut store, url.clone(), None).unwrap();
    assert_eq!(get_short_link(&store, r.short.clone()).unwrap().link, url);
}

#[test]
fn sequence_codes_increase() {
    let mut store = LinkStore::new();
    let a = add_short_link(&mut store, "http://1".to_string(), None).unwrap();
    let b = add_short_link(&mut store, "http://2".to_string(), None).unwrap();
    assert_eq!((a.id, b.id), (Some(1), Some(2)));
    assert_eq!(a.short, encode(1));
    assert_eq!(b.short, encode(2));
    assert_eq!(get_next_id(&store), Ok(3));
}

#[test]
fn ids_not_reused_after_delete() {
    let mut store = LinkStore::new();
    let a = add_short_link(&mut store, "http://1".to_string(), None).unwrap();
    delete_short_link(&mut store, a.short.clone());
    let b = add_short_link(&mut store, "http://1".to_string(), None).unwrap();
    assert_eq!(b.id, Some(2));
    assert_eq!(b.short, encode(2));
}

#[test]
fn delete_unknown_code_changes_nothing() {
    let mut store = LinkStore::new();
    let a = add_short_link(&mut store, "http://1".to_string(), None).unwrap();
    delete_short_link(&mut store, "nope".to_string());
    assert_eq!(store.records().len(), 1);
    assert_eq!(get_short_link(&store, a.short).unwrap().id, Some(1));
}

#[test]
fn custom_code_is_used() {
    let mut store = LinkStore::new();
    let m = add_short_link(&mut store, "http://1".to_string(), Some("home".to_string())).unwrap();
    assert_eq!(m.short, "home");
    assert_eq!(m.id, Some(1));
}

#[test]
fn taken_custom_code_burns_an_id() {
    let mut store = LinkStore::new();
    add_short_link(&mut store, "http://1".to_string(), Some("dup".to_string())).unwrap();
    let m = add_short_link_using(
        &mut store,
        "http://2".to_string(),
        Some("dup".to_string()),
        "placeholder".to_string(),
    )
    .unwrap();
    assert_eq!(m.id, Some(3));
    assert_eq!(m.short, encode(3));
    let p = get_short_link(&store, "placeholder".to_string()).unwrap();
    assert_eq!(p.id, Some(2));
    assert_eq!(p.link, "placeholder");
}

#[test]
fn random_placeholder_is_a_uuid() {
    let mut store = LinkStore::new();
    add_short_link(&mut store, "http://1".to_string(), Some("dup".to_string())).unwrap();
    let m = add_short_link(&mut store, "http://2".to_string(), Some("dup".to_string())).unwrap();
    assert_eq!(m.id, Some(3));
    let rows = store.records();
    assert_eq!(rows.len(), 3);
    assert_eq!(rows[1].short.len(), 36);
    assert_eq!(rows[1].short, rows[1].link);
}

#[test]
fn sequence_code_collision_after_placeholder() {
    let mut store = LinkStore::new();
    add_short_link(&mut store, "http://1".to_string(), Some(encode(3))).unwrap();
    let r = add_short_link_using(
        &mut store,
        "http://2".to_string(),
        Some(encode(3)),
        "tok".to_string(),
    );
    assert_eq!(r.unwrap_err(), StoreError::DuplicateShort);
    assert_eq!(store.records().len(), 2);
}

#[test]
fn empty_custom_code_is_refused() {
    let mut store = LinkStore::new();
    let r = add_short_link(&mut store, "http://1".to_string(), Some(String::new()));
    assert_eq!(r.unwrap_err(), StoreError::EmptyShort);
    assert!(store.records().is_empty());
}

#[test]
fn duplicate_link_insert_is_refused() {
    let mut store = LinkStore::new();
    store.insert("a".to_string(), "http://1".to_string()).unwrap();
    let r = store.insert("b".to_string(), "http://1".to_string());
    assert_eq!(r.unwrap_err(), StoreError::DuplicateLink);
    let r = store.insert("a".to_string(), "http://2".to_string());
    assert_eq!(r.unwrap_err(), StoreError::DuplicateShort);
}

#[test]
fn exhausted_id_space() {
    let mut store = LinkStore::from_rows(Vec::new(), u32::MAX).unwrap();
    assert_eq!(get_next_id(&store), Err(StoreError::Exhausted));
    let r = add_short_link(&mut store, "http://1".to_string(), None);
    assert_eq!(r.unwrap_err(), StoreError::Exhausted);
}

#[test]
fn from_rows_checks_invariant() {
    let row = |id: Option<u32>, s: &str, l: &str| Model {
        id,
        short: s.to_string(),
        link: l.to_string(),
    };
    assert!(LinkStore::from_rows(vec![row(Some(1), "a", "x"), row(Some(2), "b", "y")], 2).is_some());
    assert!(LinkStore::from_rows(vec![row(Some(1), "a", "x"), row(Some(2), "a", "y")], 2).is_none());
    assert!(LinkStore::from_rows(vec![row(Some(1), "a", "x"), row(Some(2), "b", "x")], 2).is_none());
    assert!(LinkStore::from_rows(vec![row(Some(1), "a", "x"), row(Some(1), "b", "y")], 2).is_none());
    assert!(LinkStore::from_rows(vec![row(Some(3), "a", "x")], 2).is_none());
    assert!(LinkStore::from_rows(vec![row(None, "a", "x")], 2).is_none());
    assert!(LinkStore::from_rows(vec![row(Some(1), "", "x")], 2).is_none());
    let mut store = LinkStore::from_rows(vec![row(Some(5), "a", "x")], 7).unwrap();
    let m = add_short_link(&mut store, "http://n".to_string(), None).unwrap();
    assert_eq!(m.id, Some(8));
}
