//! The resolution algorithm: discovery, fetching, rewriting, deltas,
//! convergence, the depth bound, and the single-flight session.

use rfc_dep::{
    Cache, CacheReference, IetfDoc, KeySet, Meta, RelationalEntry, ResolvableEntry,
    ResolveParams, ResolveSession, ResolveTarget, SourceUrl, StatefulDoc, Summary,
};

fn summary(id: &str) -> Summary {
    Summary {
        id: id.to_string(),
        revision: "00".to_string(),
        is_rfc: true,
        url: SourceUrl::new(&id.to_string()).unwrap(),
        title: format!("title of {id}"),
    }
}

fn doc_with_refs(id: &str, refs: Vec<CacheReference<String>>) -> StatefulDoc {
    StatefulDoc::new(IetfDoc {
        summary: summary(id),
        meta: vec![Meta::Updates(refs)],
    })
}

fn unknown(id: &str) -> CacheReference<String> {
    CacheReference::Unknown(id.to_string())
}

fn cached(id: &str) -> CacheReference<String> {
    CacheReference::Cached(id.to_string())
}

/// A source that knows a fixed family of documents, each referring to the
/// next one in a chain.
struct ChainSource {
    links: Vec<(String, Option<String>)>,
}

impl ResolvableEntry<String, StatefulDoc> for ChainSource {
    fn get_value(&self, id: String) -> Result<StatefulDoc, String> {
        for (name, next) in &self.links {
            if *name == id {
                let refs = match next {
                    Some(n) => vec![unknown(n)],
                    None => vec![],
                };
                return Ok(doc_with_refs(name, refs));
            }
        }
        Err(format!("no such document: {id}"))
    }
}

/// A source that must never be asked for anything.
struct NoSource;

impl ResolvableEntry<String, StatefulDoc> for NoSource {
    fn get_value(&self, id: String) -> Result<StatefulDoc, String> {
        panic!("unexpected fetch of {id}")
    }
}

fn refs_of(cache: &Cache<String, StatefulDoc>, id: &str) -> Vec<CacheReference<String>> {
    match &cache.get(&id.to_string()).unwrap().content.meta[0] {
        Meta::Updates(list) => list.clone(),
        _ => unreachable!(),
    }
}

#[test]
fn single_target_fetches_and_links() {
    // Store = {a: refs=[Unknown(b)]}; resolving a with querying on fetches b
    // and flips a's reference, reporting (a, +1) once.
    let mut cache: Cache<String, StatefulDoc> = Cache::default();
    cache.cache("a".to_string(), doc_with_refs("a", vec![unknown("b")]));
    let source = ChainSource { links: vec![("b".to_string(), None)] };
    let report = cache.resolve_dependencies(
        ResolveTarget::Single("a".to_string()),
        ResolveParams { print: false, query: true, depth: 1 },
        &source,
    );
    assert!(cache.has_id(&"b".to_string()));
    assert_eq!(refs_of(&cache, "a"), vec![cached("b")]);
    assert_eq!(report.changes, vec![("a".to_string(), 1isize)]);
    assert_eq!(report.iterations, 1);
    assert!(report.failures.is_empty());
}

#[test]
fn present_target_links_without_fetching() {
    // Store = {a: refs=[Unknown(b)], b: refs=[]}; with querying off the
    // reference still flips, and nothing is ever fetched.
    let mut cache: Cache<String, StatefulDoc> = Cache::default();
    cache.cache("a".to_string(), doc_with_refs("a", vec![unknown("b")]));
    cache.cache("b".to_string(), doc_with_refs("b", vec![]));
    let report = cache.resolve_dependencies(
        ResolveTarget::Single("a".to_string()),
        ResolveParams { print: false, query: false, depth: 1 },
        &NoSource,
    );
    assert_eq!(refs_of(&cache, "a"), vec![cached("b")]);
    assert_eq!(report.changes, vec![("a".to_string(), 1isize)]);
}

#[test]
fn removal_leaves_tags_stale_until_resolved() {
    // After retain removes b, a's reference stays Cached(b) — tags are a
    // lazily corrected belief — until the next resolution call flips it
    // back, reporting (a, -1).
    let mut cache: Cache<String, StatefulDoc> = Cache::default();
    cache.cache("a".to_string(), doc_with_refs("a", vec![unknown("b")]));
    cache.cache("b".to_string(), doc_with_refs("b", vec![]));
    cache.update_relations(&KeySet::new());
    assert_eq!(refs_of(&cache, "a"), vec![cached("b")]);
    cache.retain(|id: &String, _: &StatefulDoc| id != "b");
    assert!(!cache.has_id(&"b".to_string()));
    assert_eq!(refs_of(&cache, "a"), vec![cached("b")]);
    let report = cache.resolve_dependencies(
        ResolveTarget::Single("a".to_string()),
        ResolveParams { print: false, query: false, depth: 1 },
        &NoSource,
    );
    assert_eq!(refs_of(&cache, "a"), vec![unknown("b")]);
    assert_eq!(report.changes, vec![("a".to_string(), -1isize)]);
    assert!(report.converged);
    assert_eq!(report.iterations, 1);
}

#[test]
fn rewrite_pass_alone_also_corrects_stale_tags() {
    // The correcting pass is also available on its own.
    let mut cache: Cache<String, StatefulDoc> = Cache::default();
    cache.cache("a".to_string(), doc_with_refs("a", vec![cached("b")]));
    let changed = cache.update_relations(&KeySet::new());
    assert_eq!(refs_of(&cache, "a"), vec![unknown("b")]);
    assert_eq!(changed, vec![("a".to_string(), -1isize)]);
}

#[test]
fn resolving_twice_without_query_changes_nothing() {
    // Two non-querying runs in a row: the second finds the same store and
    // reports no deltas.
    let mut cache: Cache<String, StatefulDoc> = Cache::default();
    cache.cache("a".to_string(), doc_with_refs("a", vec![unknown("b"), unknown("gone")]));
    cache.cache("b".to_string(), doc_with_refs("b", vec![]));
    let params = ResolveParams { print: false, query: false, depth: 3 };
    let first = cache.resolve_dependencies(ResolveTarget::All, params.clone(), &NoSource);
    assert_eq!(first.changes, vec![("a".to_string(), 1isize)]);
    let snapshot = cache.clone();
    let second = cache.resolve_dependencies(ResolveTarget::All, params, &NoSource);
    assert!(second.changes.is_empty());
    assert_eq!(cache, snapshot);
}

#[test]
fn depth_bounds_the_number_of_passes() {
    // A chain a -> b -> c -> d resolved with depth 1 performs exactly one
    // pass: b is fetched, c is not.
    let mut cache: Cache<String, StatefulDoc> = Cache::default();
    cache.cache("a".to_string(), doc_with_refs("a", vec![unknown("b")]));
    let source = ChainSource {
        links: vec![
            ("b".to_string(), Some("c".to_string())),
            ("c".to_string(), Some("d".to_string())),
            ("d".to_string(), None),
        ],
    };
    let report = cache.resolve_dependencies(
        ResolveTarget::Single("a".to_string()),
        ResolveParams { print: false, query: true, depth: 1 },
        &source,
    );
    assert_eq!(report.iterations, 1);
    assert!(!report.converged);
    assert!(cache.has_id(&"b".to_string()));
    assert!(!cache.has_id(&"c".to_string()));
}

#[test]
fn zero_depth_does_nothing() {
    let mut cache: Cache<String, StatefulDoc> = Cache::default();
    cache.cache("a".to_string(), doc_with_refs("a", vec![unknown("b")]));
    let snapshot = cache.clone();
    let report = cache.resolve_dependencies(
        ResolveTarget::All,
        ResolveParams { print: false, query: true, depth: 0 },
        &NoSource,
    );
    assert_eq!(report.iterations, 0);
    assert!(!report.converged);
    assert!(report.changes.is_empty());
    assert_eq!(cache, snapshot);
}

#[test]
fn deep_resolution_converges_on_a_chain() {
    // With a generous depth the whole chain is pulled in, the run converges,
    // and a further run converges immediately without touching anything.
    let mut cache: Cache<String, StatefulDoc> = Cache::default();
    cache.cache("a".to_string(), doc_with_refs("a", vec![unknown("b")]));
    let source = ChainSource {
        links: vec![
            ("b".to_string(), Some("c".to_string())),
            ("c".to_string(), Some("d".to_string())),
            ("d".to_string(), None),
        ],
    };
    let params = ResolveParams { print: false, query: true, depth: 10 };
    let report = cache.resolve_dependencies(ResolveTarget::All, params.clone(), &source);
    assert!(report.converged);
    assert_eq!(cache.len(), 4);
    for id in ["a", "b", "c", "d"] {
        assert_eq!(cache.get(&id.to_string()).unwrap().get_unknown_relations_count(), 0);
    }
    let snapshot = cache.clone();
    let again = cache.resolve_dependencies(ResolveTarget::All, params, &source);
    assert!(again.converged);
    assert_eq!(again.iterations, 1);
    assert!(again.changes.is_empty());
    assert_eq!(cache, snapshot);
}

#[test]
fn convergence_handles_cycles() {
    // Two documents referring to each other: resolution converges instead of
    // looping.
    let mut cache: Cache<String, StatefulDoc> = Cache::default();
    cache.cache("a".to_string(), doc_with_refs("a", vec![unknown("b")]));
    cache.cache("b".to_string(), doc_with_refs("b", vec![unknown("a")]));
    let report = cache.resolve_dependencies(
        ResolveTarget::All,
        ResolveParams { print: false, query: false, depth: 100 },
        &NoSource,
    );
    assert!(report.converged);
    assert_eq!(refs_of(&cache, "a"), vec![cached("b")]);
    assert_eq!(refs_of(&cache, "b"), vec![cached("a")]);
}

#[test]
fn fetch_failures_are_local() {
    // One reference can be fetched, the other cannot: the failure is
    // reported, the success is cached, and the failed key stays unknown.
    let mut cache: Cache<String, StatefulDoc> = Cache::default();
    cache.cache(
        "a".to_string(),
        doc_with_refs("a", vec![unknown("b"), unknown("missing")]),
    );
    let source = ChainSource { links: vec![("b".to_string(), None)] };
    let report = cache.resolve_dependencies(
        ResolveTarget::Single("a".to_string()),
        ResolveParams { print: false, query: true, depth: 1 },
        &source,
    );
    assert_eq!(report.failures.len(), 1);
    assert!(report.failures[0].contains("missing"));
    assert!(cache.has_id(&"b".to_string()));
    assert!(!cache.has_id(&"missing".to_string()));
    assert_eq!(refs_of(&cache, "a"), vec![cached("b"), unknown("missing")]);
    assert_eq!(report.changes, vec![("a".to_string(), 1isize)]);
}

#[test]
fn delta_matches_unknown_count_difference() {
    // One pass over an entry with three references, two of which flip to
    // known and one of which flips to unknown: delta is old minus new.
    let mut cache: Cache<String, StatefulDoc> = Cache::default();
    cache.cache(
        "a".to_string(),
        doc_with_refs("a", vec![unknown("b"), unknown("c"), cached("gone")]),
    );
    cache.cache("b".to_string(), doc_with_refs("b", vec![]));
    cache.cache("c".to_string(), doc_with_refs("c", vec![]));
    let before = cache.get(&"a".to_string()).unwrap().get_unknown_relations_count();
    let changed = cache.update_relations(&KeySet::new());
    let after = cache.get(&"a".to_string()).unwrap().get_unknown_relations_count();
    assert_eq!(before, 2);
    assert_eq!(after, 1);
    assert_eq!(changed, vec![("a".to_string(), 1isize)]);
}

#[test]
fn session_is_single_flight() {
    let mut session: ResolveSession<String, StatefulDoc> = ResolveSession::new();
    session.cache.cache("a".to_string(), doc_with_refs("a", vec![unknown("b")]));
    assert!(!session.is_resolving());

    let mut taken = session.start_resolution().expect("nothing was in flight");
    assert!(session.is_resolving());
    assert!(session.cache.is_empty());
    assert!(session.start_resolution().is_none());

    // foreground keeps working while the worker owns the taken cache
    session.cache.cache("c".to_string(), doc_with_refs("c", vec![]));
    let report = taken.resolve_dependencies(
        ResolveTarget::All,
        ResolveParams { print: false, query: true, depth: 5 },
        &ChainSource { links: vec![("b".to_string(), None)] },
    );
    assert!(report.converged);

    session.finish_resolution(taken);
    assert!(!session.is_resolving());
    assert_eq!(session.cache.len(), 3);
    assert!(session.cache.has_id(&"a".to_string()));
    assert!(session.cache.has_id(&"b".to_string()));
    assert!(session.cache.has_id(&"c".to_string()));
}

#[test]
fn refresh_applies_exact_deltas() {
    // With counters in line, one delta-applying refresh after a removal
    // restores counter == unknown count everywhere.
    let mut cache: Cache<String, StatefulDoc> = Cache::default();
    cache.cache("a".to_string(), doc_with_refs("a", vec![unknown("b")]));
    cache.cache("b".to_string(), doc_with_refs("b", vec![]));
    assert_eq!(cache.get(&"a".to_string()).unwrap().missing_dep_count, 1);
    let changed = cache.refresh_counters(false);
    assert_eq!(changed, vec![("a".to_string(), 1isize)]);
    assert_eq!(cache.get(&"a".to_string()).unwrap().missing_dep_count, 0);
    assert_eq!(refs_of(&cache, "a"), vec![cached("b")]);

    cache.retain(|id: &String, _: &StatefulDoc| id != "b");
    let changed = cache.refresh_counters(false);
    assert_eq!(changed, vec![("a".to_string(), -1isize)]);
    assert_eq!(cache.get(&"a".to_string()).unwrap().missing_dep_count, 1);
    assert_eq!(refs_of(&cache, "a"), vec![unknown("b")]);
}

#[test]
fn refresh_recomputes_corrupted_counters() {
    let mut cache: Cache<String, StatefulDoc> = Cache::default();
    cache.cache("a".to_string(), doc_with_refs("a", vec![unknown("b")]));
    cache.value_at_mut(0).missing_dep_count = 7;
    cache.refresh_counters(true);
    assert_eq!(cache.get(&"a".to_string()).unwrap().missing_dep_count, 1);
}

#[test]
fn counters_follow_a_background_style_merge() {
    // The relocate-resolve-merge flow, followed by one recounting refresh,
    // leaves every counter equal to its entry's unknown count.
    let mut session: ResolveSession<String, StatefulDoc> = ResolveSession::new();
    session.cache.cache("a".to_string(), doc_with_refs("a", vec![unknown("b")]));
    let mut taken = session.start_resolution().unwrap();
    session.cache.cache("c".to_string(), doc_with_refs("c", vec![unknown("a")]));
    taken.resolve_dependencies(
        ResolveTarget::All,
        ResolveParams { print: false, query: true, depth: 5 },
        &ChainSource { links: vec![("b".to_string(), None)] },
    );
    session.finish_resolution(taken);
    session.cache.refresh_counters(true);
    for id in ["a", "b", "c"] {
        let state = session.cache.get(&id.to_string()).unwrap();
        assert_eq!(
            state.missing_dep_count,
            state.get_unknown_relations_count(),
            "counter out of line for {id}"
        );
    }
    assert_eq!(session.cache.get(&"c".to_string()).unwrap().missing_dep_count, 0);
}
