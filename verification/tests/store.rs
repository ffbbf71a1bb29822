//! The keyed store: lookup, insertion, merge, filtered removal, ordered
//! iteration.

use rfc_dep::{Cache, CacheReference, IetfDoc, Meta, SourceUrl, StatefulDoc, Summary};

fn summary(id: &str) -> Summary {
    Summary {
        id: id.to_string(),
        revision: "00".to_string(),
        is_rfc: true,
        url: SourceUrl::new(&id.to_string()).unwrap(),
        title: format!("title of {id}"),
    }
}

fn doc(id: &str, refs: Vec<&str>) -> StatefulDoc {
    let list = refs
        .into_iter()
        .map(|r| CacheReference::Unknown(r.to_string()))
        .collect();
    StatefulDoc::new(IetfDoc {
        summary: summary(id),
        meta: vec![Meta::Updates(list)],
    })
}

#[test]
fn put_get_has() {
    let mut cache: Cache<String, StatefulDoc> = Cache::default();
    assert!(cache.is_empty());
    assert!(cache.cache("rfc1".to_string(), doc("rfc1", vec![])).is_none());
    assert!(cache.has_id(&"rfc1".to_string()));
    assert!(!cache.has_id(&"rfc2".to_string()));
    assert_eq!(cache.get(&"rfc1".to_string()).unwrap().content.summary.id, "rfc1");
    assert!(cache.get(&"rfc2".to_string()).is_none());
    assert_eq!(cache.len(), 1);
    assert!(!cache.is_empty());
}

#[test]
fn insert_returns_previous_value() {
    let mut cache: Cache<String, StatefulDoc> = Cache::default();
    let first = doc("a", vec!["x"]);
    let second = doc("a", vec![]);
    assert!(cache.cache("a".to_string(), first.clone()).is_none());
    let prev = cache.cache("a".to_string(), second.clone());
    assert_eq!(prev, Some(first));
    assert_eq!(cache.get(&"a".to_string()), Some(&second));
    assert_eq!(cache.len(), 1);
}

#[test]
fn remove_returns_value() {
    let mut cache: Cache<String, StatefulDoc> = Cache::default();
    let d = doc("a", vec![]);
    cache.cache("a".to_string(), d.clone());
    assert_eq!(cache.remove(&"a".to_string()), Some(d));
    assert_eq!(cache.remove(&"a".to_string()), None);
    assert_eq!(cache.len(), 0);
}

#[test]
fn clear_empties_the_store() {
    let mut cache: Cache<String, StatefulDoc> = Cache::default();
    cache.cache("a".to_string(), doc("a", vec![]));
    cache.cache("b".to_string(), doc("b", vec![]));
    cache.clear();
    assert!(cache.is_empty());
    assert!(!cache.has_id(&"a".to_string()));
}

#[test]
fn iteration_follows_key_order_not_insertion_order() {
    let mut cache: Cache<String, StatefulDoc> = Cache::default();
    for id in ["rfc9000", "draft-abc", "rfc102", "rfc1"] {
        cache.cache(id.to_string(), doc(id, vec![]));
    }
    let mut seen = Vec::new();
    for i in 0..cache.len() {
        seen.push(cache.entry_at(i).0.clone());
    }
    assert_eq!(seen, vec!["draft-abc", "rfc1", "rfc102", "rfc9000"]);
}

#[test]
fn merge_prefers_the_incoming_value() {
    let mut a: Cache<String, StatefulDoc> = Cache::default();
    let mut b: Cache<String, StatefulDoc> = Cache::default();
    let ours = doc("k", vec!["x"]);
    let theirs = doc("k", vec![]);
    a.cache("k".to_string(), ours);
    a.cache("only-a".to_string(), doc("only-a", vec![]));
    b.cache("k".to_string(), theirs.clone());
    b.cache("only-b".to_string(), doc("only-b", vec![]));
    a.merge_with(b);
    assert_eq!(a.len(), 3);
    assert_eq!(a.get(&"k".to_string()), Some(&theirs));
    assert!(a.has_id(&"only-a".to_string()));
    assert!(a.has_id(&"only-b".to_string()));
}

#[test]
fn retain_keeps_only_approved_entries() {
    let mut cache: Cache<String, StatefulDoc> = Cache::default();
    let mut selected = doc("a", vec![]);
    selected.is_selected = true;
    cache.cache("a".to_string(), selected);
    cache.cache("b".to_string(), doc("b", vec![]));
    cache.retain(|_id: &String, state: &StatefulDoc| !state.is_selected);
    assert!(!cache.has_id(&"a".to_string()));
    assert!(cache.has_id(&"b".to_string()));
    assert_eq!(cache.len(), 1);
}
