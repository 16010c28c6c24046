use ficsit_networks_repository::cache::FetchError;
use ficsit_networks_repository::model::{readme_or_empty, PackageMetadata, Readme, VersionMetadata};
use ficsit_networks_repository::repository::{
    assemble_package, assemble_versions, package_meta_locator, readme_locator, version_meta_locator,
    versions_of_document, Repository, TIME_TO_LIVE,
};
use ficsit_networks_repository::version::SemVer;

fn vmeta(fin: Option<&str>) -> VersionMetadata {
    VersionMetadata { fin_version: fin.map(|s| s.to_string()), game_version: None, mod_dependencies: vec![], eeprom: vec![] }
}

fn pmeta() -> PackageMetadata {
    PackageMetadata { name: "Net".into(), short_description: "d".into(), tags: vec![], authors: vec!["a".into()] }
}

fn versions(vs: &[&str]) -> Vec<SemVer> {
    vs.iter().map(|v| SemVer::parse(v).unwrap()).collect()
}

#[test]
fn locators() {
    assert_eq!(package_meta_locator("net"), "/Packages/net/metadata.toml");
    assert_eq!(version_meta_locator("net", "1.2.3"), "/Packages/net/v1.2.3/metadata.toml");
    assert_eq!(readme_locator("net", true), "/Packages/net/README.adoc");
    assert_eq!(readme_locator("net", false), "/Packages/net/README.md");
    let r = Repository::new("https://raw.example.org/repo".to_string());
    assert_eq!(r.path("/Packages/net/metadata.toml"), "https://raw.example.org/repo/Packages/net/metadata.toml");
    assert_eq!(TIME_TO_LIVE, 30);
}

#[test]
fn document_versions_skip_unreadable() {
    let strings: Vec<String> = ["2.0.0", "garbage", "1.0.0"].iter().map(|s| s.to_string()).collect();
    let vs = versions_of_document(&strings);
    assert_eq!(vs.iter().map(|v| v.as_str()).collect::<Vec<_>>(), vec!["2.0.0", "1.0.0"]);
}

#[test]
fn versions_assemble_in_order() {
    let r = assemble_versions(versions(&["2.0.0", "1.0.0"]), vec![Ok(vmeta(Some(">=1.0.0"))), Ok(vmeta(None))]);
    let vs = r.ok().expect("assembled");
    assert_eq!(vs.len(), 2);
    assert_eq!(vs[0].version.as_str(), "2.0.0");
    assert_eq!(vs[0].fin_version.as_ref().map(|q| q.as_str()), Some(">=1.0.0"));
    assert!(vs[1].fin_version.is_none());
}

#[test]
fn first_failing_version_fails_the_package() {
    let r = assemble_versions(
        versions(&["3.0.0", "2.0.0", "1.0.0"]),
        vec![Ok(vmeta(None)), Err(FetchError::NotFound), Err(FetchError::Upstream)],
    );
    assert_eq!(r.err(), Some(FetchError::NotFound));
    let r = assemble_versions(versions(&["2.0.0", "1.0.0"]), vec![Ok(vmeta(Some("bad req"))), Err(FetchError::NotFound)]);
    assert_eq!(r.err(), Some(FetchError::Upstream));
}

#[test]
fn package_assembly() {
    let ok = assemble_package("net".into(), Ok(pmeta()), Readme::Markdown("r".into()), Some(Ok(vec![])));
    let p = ok.ok().expect("assembled");
    assert_eq!(p.id, "net");
    assert_eq!(p.name, "Net");
    assert_eq!(p.authors, vec!["a".to_string()]);
    let e = assemble_package("net".into(), Err(FetchError::Upstream), Readme::Markdown(String::new()), None);
    assert_eq!(e.err(), Some(FetchError::Upstream));
    let e = assemble_package("net".into(), Ok(pmeta()), Readme::Markdown("r".into()), None);
    assert_eq!(e.err(), Some(FetchError::NotFound));
    let e = assemble_package("net".into(), Ok(pmeta()), Readme::Markdown("r".into()), Some(Err(FetchError::Upstream)));
    assert_eq!(e.err(), Some(FetchError::Upstream));
}

#[test]
fn missing_readme_gives_empty_markdown() {
    let p = assemble_package("net".into(), Ok(pmeta()), readme_or_empty(None, None), Some(Ok(vec![])))
        .ok()
        .expect("assembled without a readme");
    assert!(matches!(p.readme, Readme::Markdown(ref s) if s.is_empty()));
}
