use ficsit_networks_repository::index::build_package;
use ficsit_networks_repository::model::{Package, PackageMetadata, PackageVersion, Readme, VersionMetadata};
use ficsit_networks_repository::version::SemVer;
use ficsit_networks_repository::web::{select_version, AcceptJsonOnly, PackageQuery};

fn package(vs: &[&str]) -> Package {
    let versions = vs
        .iter()
        .map(|v| {
            PackageVersion::from_metadata(
                SemVer::parse(v).unwrap(),
                VersionMetadata { fin_version: None, game_version: None, mod_dependencies: vec![], eeprom: vec![] },
            )
            .unwrap()
        })
        .collect();
    build_package(
        "net".into(),
        Readme::Markdown(String::new()),
        versions,
        PackageMetadata { name: "Net".into(), short_description: String::new(), tags: vec![], authors: vec![] },
    )
}

#[test]
fn page_shows_named_version() {
    let p = package(&["1.0.0", "2.0.0", "1.5.0"]);
    assert_eq!(select_version(&p, &PackageQuery { version: Some("1.5.0".into()) }), Some(1));
    assert_eq!(select_version(&p, &PackageQuery { version: Some("1.0.0".into()) }), Some(2));
}

#[test]
fn page_falls_back_to_newest() {
    let p = package(&["1.0.0", "2.0.0"]);
    assert_eq!(select_version(&p, &PackageQuery { version: None }), Some(0));
    assert_eq!(select_version(&p, &PackageQuery { version: Some("9.9.9".into()) }), Some(0));
    assert_eq!(select_version(&p, &PackageQuery { version: Some("junk".into()) }), Some(0));
    let empty = package(&[]);
    assert_eq!(select_version(&empty, &PackageQuery { version: None }), None);
}

#[test]
fn json_only_accept_header() {
    assert_eq!(AcceptJsonOnly::from_accept_header(&Some("application/json".into())), AcceptJsonOnly(true));
    assert_eq!(AcceptJsonOnly::from_accept_header(&Some("text/html".into())), AcceptJsonOnly(false));
    assert_eq!(AcceptJsonOnly::from_accept_header(&None), AcceptJsonOnly(false));
}
