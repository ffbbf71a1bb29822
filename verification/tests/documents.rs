//! The document layer: identifier normalization, metadata parsing, counting,
//! source URLs, errors, and tabs.

use rfc_dep::{
    CacheReference, DocError, IetfDoc, KeySet, Meta, RelationalEntry, SourceUrl, StatefulDoc,
    Summary, Tab, Tabs, name_to_id, update_missing_dep_count,
};

fn summary(id: &str) -> Summary {
    Summary {
        id: id.to_string(),
        revision: "03".to_string(),
        is_rfc: false,
        url: SourceUrl::new(&id.to_string()).unwrap(),
        title: "A Title".to_string(),
    }
}

fn unknown(id: &str) -> CacheReference<String> {
    CacheReference::Unknown(id.to_string())
}

fn cached(id: &str) -> CacheReference<String> {
    CacheReference::Cached(id.to_string())
}

#[test]
fn name_normalization_strips_spaces_and_lowercases() {
    assert_eq!(name_to_id("RFC 9000"), "rfc9000");
    assert_eq!(name_to_id("draft-ietf-quic"), "draft-ietf-quic");
    assert_eq!(name_to_id(""), "");
}

#[test]
fn reference_reads_its_key_and_tag() {
    let u = unknown("rfc1");
    let c = cached("rfc2");
    assert_eq!(u.id(), "rfc1");
    assert_eq!(c.id(), "rfc2");
    assert!(!u.is_cached());
    assert!(c.is_cached());
}

#[test]
fn meta_from_html_builds_reference_lists() {
    let lines = vec![
        "Updated by".to_string(),
        "RFC 9001".to_string(),
        ", ".to_string(),
        "RFC 9002".to_string(),
    ];
    let m = Meta::from_html("updated_by", &lines).unwrap();
    assert_eq!(m, Meta::UpdatedBy(vec![unknown("rfc9001"), unknown("rfc9002")]));

    let m = Meta::from_html("updates", &lines).unwrap();
    assert_eq!(m, Meta::Updates(vec![unknown("rfc9001"), unknown("rfc9002")]));
}

#[test]
fn meta_from_html_trims_single_names() {
    let lines = vec!["Was".to_string(), "  draft-OLD-name ".to_string()];
    assert_eq!(
        Meta::from_html("was", &lines).unwrap(),
        Meta::Was("draft-old-name".to_string())
    );
    let lines = vec![" RFC 20 ".to_string()];
    assert_eq!(
        Meta::from_html("replaces", &lines).unwrap(),
        Meta::Replaces(unknown("rfc20"))
    );
    assert_eq!(
        Meta::from_html("replaced_by", &lines).unwrap(),
        Meta::ReplacedBy(unknown("rfc20"))
    );
}

#[test]
fn meta_from_html_rejects_unknown_labels() {
    let e = Meta::from_html("stream", &vec![]).unwrap_err();
    assert_eq!(e.name(), "UnknownMetaError");
    assert!(e.description().contains("stream"));
}

#[test]
fn meta_from_xml_folds_splits_and_prefixes() {
    let m = Meta::from_xml("updates", "1034,1035").unwrap();
    assert_eq!(m, Meta::Updates(vec![unknown("rfc1034"), unknown("rfc1035")]));
    let m = Meta::from_xml("obsoletes", "882").unwrap();
    assert_eq!(m, Meta::Obsoletes(vec![unknown("rfc882")]));
    let m = Meta::from_xml("replaces", "973,974").unwrap();
    assert_eq!(m, Meta::Replaces(unknown("rfc973")));
    assert!(Meta::from_xml("category", "std").is_err());
}

#[test]
fn meta_counts_relations() {
    assert_eq!(Meta::Updates(vec![unknown("a"), unknown("b")]).count(), 2);
    assert_eq!(Meta::Was("x".to_string()).count(), 1);
    assert_eq!(Meta::Replaces(unknown("a")).count(), 1);
    let doc = IetfDoc {
        summary: summary("rfc1"),
        meta: vec![
            Meta::Updates(vec![unknown("a"), cached("b")]),
            Meta::ObsoletedBy(vec![unknown("c")]),
            Meta::AlsoKnownAs("x".to_string()),
        ],
    };
    assert_eq!(doc.meta_count(), 4);
    assert_eq!(doc.missing(), 2);
}

#[test]
fn stateful_doc_seeds_its_missing_counter() {
    let doc = IetfDoc {
        summary: summary("rfc1"),
        meta: vec![
            Meta::Updates(vec![unknown("a"), cached("b")]),
            Meta::ReplacedBy(unknown("c")),
        ],
    };
    let state = StatefulDoc::new(doc);
    assert_eq!(state.missing_dep_count, 2);
    assert!(!state.is_read);
    assert!(!state.is_selected);
    assert!(!state.to_resolve);
    assert!(state.offline.is_none());
    assert_eq!(state.get_unknown_relations_count(), 2);
    let unknowns = state.get_unknown_relations();
    assert!(unknowns.contains(&"a".to_string()));
    assert!(!unknowns.contains(&"b".to_string()));
    assert!(unknowns.contains(&"c".to_string()));
}

#[test]
fn missing_counter_follows_deltas() {
    let doc = IetfDoc {
        summary: summary("rfc1"),
        meta: vec![Meta::Updates(vec![unknown("a"), unknown("b")])],
    };
    let mut state = StatefulDoc::new(doc);
    assert_eq!(state.missing_dep_count, 2);
    update_missing_dep_count(&mut state, 2);
    assert_eq!(state.missing_dep_count, 0);
    update_missing_dep_count(&mut state, -1);
    assert_eq!(state.missing_dep_count, 1);
}

#[test]
fn source_url_round_trips_the_identifier() {
    let url = SourceUrl::new(&"rfc9000".to_string()).unwrap();
    assert_eq!(url.html(), "https://datatracker.ietf.org/doc/rfc9000");
    assert_eq!(url.get_id().unwrap(), "rfc9000");
    assert_eq!(url.xml(true).unwrap(), "https://www.rfc-editor.org/rfc/rfc9000.xml");
    assert_eq!(url.xml(false).unwrap(), "https://www.ietf.org/archive/id/rfc9000.xml");
    assert_eq!(url.raw(true).unwrap(), "https://www.rfc-editor.org/rfc/rfc9000.txt");
    assert_eq!(url.raw(false).unwrap(), "https://www.ietf.org/archive/id/rfc9000.txt");
}

#[test]
fn source_url_ignores_one_trailing_slash() {
    let url = SourceUrl::from_parts(
        "rfc1".to_string(),
        "https://datatracker.ietf.org/doc/rfc1/".to_string(),
    );
    assert_eq!(url.get_id().unwrap(), "rfc1");
    let empty = SourceUrl::from_parts("x".to_string(), "".to_string());
    assert_eq!(empty.get_id().unwrap_err().name(), "UrlError");
}

#[test]
fn summary_from_record_names_rfcs_and_drafts() {
    let s = Summary::from_record("quic-transport", "34", "QUIC", Some("9000")).unwrap();
    assert_eq!(s.id, "rfc9000");
    assert!(s.is_rfc);
    assert_eq!(s.revision, "34");
    assert_eq!(s.title, "QUIC");
    assert_eq!(s.url.html(), "https://datatracker.ietf.org/doc/rfc9000");

    let s = Summary::from_record("draft-ietf-quic-http", "34", "HTTP/3", None).unwrap();
    assert_eq!(s.id, "draft-ietf-quic-http-34");
    assert!(!s.is_rfc);
}

#[test]
fn error_names_and_descriptions() {
    let cases = vec![
        (DocError::Url("bad".to_string()), "UrlError", "bad"),
        (DocError::Query("down".to_string()), "QueryError", "down"),
        (DocError::Lookup("no query".to_string()), "LookupError", "no query"),
        (DocError::UnknownMeta("huh".to_string()), "UnknownMetaError", "huh"),
    ];
    for (e, name, desc) in cases {
        assert_eq!(e.name(), name);
        assert_eq!(e.description(), desc);
    }
}

#[test]
fn key_sets_deduplicate() {
    let mut s: KeySet<String> = KeySet::new();
    assert!(s.is_empty());
    s.insert("a".to_string());
    s.insert("b".to_string());
    s.insert("a".to_string());
    assert_eq!(s.count(), 2);
    assert!(s.contains(&"a".to_string()));
    assert!(!s.contains(&"c".to_string()));
    let mut t: KeySet<String> = KeySet::new();
    t.insert("b".to_string());
    t.insert("c".to_string());
    s.extend(t);
    assert_eq!(s.count(), 3);
    assert!(s.contains(&"c".to_string()));
}

#[test]
fn tabs_enumerate_in_display_order() {
    assert_eq!(Tabs::all(), vec![Tab::Table, Tab::Graph, Tab::Viewer]);
    assert_eq!(Tab::default(), Tab::Table);
}
