use ficsit_networks_repository::codec::{encode, ModDependency, VersionData};
use ficsit_networks_repository::filter::{
    best_version, check_version, check_version_bytes, check_versions, matches_document,
    parse_search_query, query_text, select_page, PackageHit, Pagination, QueryVersions,
    SearchQuery, StoredDocument,
};
use ficsit_networks_repository::version::SemVer;

fn query(fin: Option<&str>, check_mods: Option<bool>, other: Vec<(&str, Option<&str>)>) -> QueryVersions {
    parse_search_query(&SearchQuery {
        search: None,
        check_mods,
        game_version: None,
        fin_version: fin.map(|s| s.to_string()),
        other: other
            .into_iter()
            .map(|(k, v)| (k.to_string(), v.map(|s| s.to_string())))
            .collect(),
    })
}

fn record(fin: Option<&str>, deps: Vec<(&str, Option<&str>)>) -> VersionData {
    VersionData {
        fin_version: fin.map(|s| s.to_string()),
        game_version: None,
        mod_dependencies: deps
            .into_iter()
            .map(|(id, v)| ModDependency { id: id.to_string(), version: v.map(|s| s.to_string()) })
            .collect(),
    }
}

fn document(id: &str, versions: Vec<(&str, Vec<u8>)>) -> StoredDocument {
    StoredDocument {
        id: id.to_string(),
        versions: versions.iter().map(|(v, _)| v.to_string()).collect(),
        version_data: versions.into_iter().map(|(_, b)| b).collect(),
    }
}

#[test]
fn search_query_is_read() {
    let q = query(
        Some("1.5.0"),
        Some(true),
        vec![("mod_libX", Some("1.3.0")), ("page", Some("2")), ("mod_libY", None), ("mod_libZ", Some("bad"))],
    );
    assert_eq!(q.fin_version.as_ref().map(|v| v.as_str()), Some("1.5.0"));
    assert!(q.game_version.is_none());
    assert!(q.check_mods);
    let mods: Vec<(String, Option<String>)> =
        q.mods.iter().map(|(k, v)| (k.clone(), v.as_ref().map(|v| v.as_str().to_string()))).collect();
    assert_eq!(
        mods,
        vec![
            ("libX".to_string(), Some("1.3.0".to_string())),
            ("libY".to_string(), None),
            ("libZ".to_string(), None),
        ]
    );
    let q = query(Some("not a version"), None, vec![]);
    assert!(q.fin_version.is_none());
    assert!(!q.check_mods);
}

#[test]
fn host_requirement_eligibility() {
    let r = record(Some(">=1.0.0,<2.0.0"), vec![]);
    assert!(check_versions(&query(Some("1.5.0"), None, vec![]), &r));
    assert!(!check_versions(&query(Some("2.0.0"), None, vec![]), &r));
    let free = record(None, vec![]);
    assert!(check_versions(&query(Some("1.5.0"), None, vec![]), &free));
    assert!(check_versions(&query(Some("2.0.0"), None, vec![]), &free));
    assert!(check_versions(&query(None, None, vec![]), &free));
    assert!(check_versions(&query(None, None, vec![]), &r));
}

#[test]
fn unreadable_requirement_is_ineligible() {
    let r = record(Some("nonsense"), vec![]);
    assert!(!check_versions(&query(Some("1.5.0"), None, vec![]), &r));
    assert!(check_versions(&query(None, None, vec![]), &r));
}

#[test]
fn single_axis_check() {
    let v = SemVer::parse("1.5.0");
    assert!(check_version(&Some(">=1.0.0".to_string()), &v));
    assert!(!check_version(&Some(">=2.0.0".to_string()), &v));
    assert!(check_version(&None, &v));
    assert!(check_version(&Some(">=2.0.0".to_string()), &None));
}

#[test]
fn dependency_mode() {
    let r = record(None, vec![("libX", Some("^1.2.0"))]);
    assert!(check_versions(&query(None, Some(true), vec![("mod_libX", Some("1.3.0"))]), &r));
    assert!(!check_versions(&query(None, Some(true), vec![("mod_libX", Some("2.0.0"))]), &r));
    assert!(!check_versions(&query(None, Some(true), vec![]), &r));
    assert!(!check_versions(&query(None, Some(true), vec![("mod_libX", None)]), &r));
    assert!(check_versions(&query(None, Some(false), vec![]), &r));
    let any = record(None, vec![("libX", None)]);
    assert!(check_versions(&query(None, Some(true), vec![("mod_libX", None)]), &any));
    assert!(!check_versions(&query(None, Some(true), vec![("mod_libY", None)]), &any));
}

#[test]
fn best_match_skips_newer_ineligible_version() {
    let d = document(
        "pkg",
        vec![
            ("2.0.0", encode(&record(Some(">=3.0.0"), vec![]))),
            ("1.0.0", encode(&record(None, vec![]))),
        ],
    );
    let q = query(Some("1.5.0"), None, vec![]);
    assert!(matches_document(&q, &d));
    assert_eq!(best_version(&q, &d), Some(1));
}

#[test]
fn best_match_is_highest_precedence_not_first() {
    let d = document(
        "pkg",
        vec![
            ("1.0.0", encode(&record(None, vec![]))),
            ("1.10.0", encode(&record(None, vec![]))),
            ("1.2.0", encode(&record(None, vec![]))),
            ("1.10.0-rc.1", encode(&record(None, vec![]))),
        ],
    );
    let q = query(Some("1.0.0"), None, vec![]);
    assert_eq!(best_version(&q, &d), Some(1));
}

#[test]
fn no_best_match_without_constraints() {
    let d = document("pkg", vec![("1.0.0", encode(&record(None, vec![])))]);
    let q = query(None, None, vec![]);
    assert!(matches_document(&q, &d));
    assert_eq!(best_version(&q, &d), None);
    let empty = document("empty", vec![]);
    assert!(matches_document(&q, &empty));
    assert!(!matches_document(&query(Some("1.0.0"), None, vec![]), &empty));
}

#[test]
fn corrupt_record_is_skipped() {
    let good = encode(&record(None, vec![]));
    let mut truncated = encode(&record(Some(">=1.0.0"), vec![]));
    truncated.truncate(5);
    let d = document(
        "pkg",
        vec![
            ("3.0.0", truncated.clone()),
            ("2.0.0", encode(&record(Some(">=9.0.0"), vec![]))),
            ("1.1.0", good.clone()),
            ("1.0.0", good),
        ],
    );
    let q = query(Some("1.5.0"), None, vec![]);
    assert!(!check_version_bytes(&q, &truncated));
    assert!(matches_document(&q, &d));
    assert_eq!(best_version(&q, &d), Some(2));
}

#[test]
fn filtered_pagination() {
    let q = query(Some("1.5.0"), None, vec![]);
    let eligible = encode(&record(None, vec![]));
    let ineligible = encode(&record(Some(">=9.0.0"), vec![]));
    let mut docs = Vec::new();
    for i in 0..20 {
        let bytes = if i % 4 == 3 { ineligible.clone() } else { eligible.clone() };
        docs.push(document(&format!("p{i}"), vec![("1.0.0", bytes)]));
    }
    let matching: Vec<usize> = (0..20).filter(|i| i % 4 != 3).collect();
    assert_eq!(matching.len(), 15);
    let page0 = select_page(&q, &docs, &Pagination { page: Some(0), page_size: Some(10) });
    let page1 = select_page(&q, &docs, &Pagination { page: Some(1), page_size: Some(10) });
    assert_eq!(page0.iter().map(|h| h.doc).collect::<Vec<_>>(), matching[..10].to_vec());
    assert_eq!(page1.iter().map(|h| h.doc).collect::<Vec<_>>(), matching[10..].to_vec());
    assert_eq!(page1.len(), 5);
    assert!(page1.iter().all(|h| h.version == Some(0)));
    let page2 = select_page(&q, &docs, &Pagination { page: Some(2), page_size: Some(10) });
    assert!(page2.is_empty());
}

#[test]
fn default_page_is_first_ten() {
    let q = query(None, None, vec![]);
    let docs: Vec<StoredDocument> = (0..12).map(|i| document(&format!("p{i}"), vec![])).collect();
    let page = select_page(&q, &docs, &Pagination { page: None, page_size: None });
    assert_eq!(page, (0..10).map(|doc| PackageHit { doc, version: None }).collect::<Vec<_>>());
    let far = select_page(&q, &docs, &Pagination { page: Some(usize::MAX), page_size: Some(usize::MAX) });
    assert!(far.is_empty());
}

#[test]
fn blank_search_matches_all() {
    assert_eq!(query_text(&None), "*");
    assert_eq!(query_text(&Some(String::new())), "*");
    assert_eq!(query_text(&Some("  \t".to_string())), "*");
    assert_eq!(query_text(&Some(" net ".to_string())), " net ");
    assert_eq!(query_text(&Some("\u{a0}\u{3000}\u{2003}\u{85}".to_string())), "*");
    assert_eq!(query_text(&Some("\u{a0}x".to_string())), "\u{a0}x");
}
