use ficsit_networks_repository::codec::decode;
use ficsit_networks_repository::index::{
    build_package, build_schema, load_schema, package_document, record_of, version_of_folder,
    FieldKind, FieldNotFound, PackageSchema,
};
use ficsit_networks_repository::model::{
    choose_readme, readme_or_empty, DependencyMetadata, PackageMetadata, PackageVersion, Readme,
    VersionMetadata, EEPROM,
};
use ficsit_networks_repository::version::SemVer;

fn meta(fin: Option<&str>, deps: Vec<(&str, Option<&str>)>) -> VersionMetadata {
    VersionMetadata {
        fin_version: fin.map(|s| s.to_string()),
        game_version: Some(">=1.0".to_string()),
        mod_dependencies: deps
            .into_iter()
            .map(|(id, v)| DependencyMetadata { id: id.to_string(), version: v.map(|s| s.to_string()) })
            .collect(),
        eeprom: vec![EEPROM { name: "n".to_string(), title: "t".to_string(), description: "d".to_string() }],
    }
}

fn version(v: &str, fin: Option<&str>) -> PackageVersion {
    PackageVersion::from_metadata(SemVer::parse(v).unwrap(), meta(fin, vec![("libX", Some("^1.2.0"))])).unwrap()
}

fn package_metadata() -> PackageMetadata {
    PackageMetadata {
        name: "Net".to_string(),
        short_description: "network tools".to_string(),
        tags: vec!["net".to_string()],
        authors: vec!["someone".to_string()],
    }
}

#[test]
fn versions_are_sorted_newest_first() {
    let p = build_package(
        "net".to_string(),
        Readme::Markdown("# Net".to_string()),
        vec![version("1.0.0", None), version("2.0.0", None), version("1.5.0", None)],
        package_metadata(),
    );
    let order: Vec<&str> = p.versions.iter().map(|v| v.version.as_str()).collect();
    assert_eq!(order, vec!["2.0.0", "1.5.0", "1.0.0"]);
}

#[test]
fn prerelease_sorts_below_its_release() {
    let p = build_package(
        "net".to_string(),
        Readme::Markdown(String::new()),
        vec![version("1.0.0", None), version("2.0.0-rc.1", None), version("2.0.0", None), version("1.5.0", None)],
        package_metadata(),
    );
    let order: Vec<&str> = p.versions.iter().map(|v| v.version.as_str()).collect();
    assert_eq!(order, vec!["2.0.0", "2.0.0-rc.1", "1.5.0", "1.0.0"]);
}

#[test]
fn release_candidate_above_older_releases() {
    let p = build_package(
        "net".to_string(),
        Readme::Markdown(String::new()),
        vec![version("1.0.0", None), version("2.0.0-rc.1", None), version("1.5.0", None)],
        package_metadata(),
    );
    let order: Vec<&str> = p.versions.iter().map(|v| v.version.as_str()).collect();
    assert_eq!(order, vec!["2.0.0-rc.1", "1.5.0", "1.0.0"]);
}

#[test]
fn document_fields_are_aligned() {
    let p = build_package(
        "net".to_string(),
        Readme::ASCIIDOC("= Net".to_string()),
        vec![version("1.0.0", Some(">=0.3.0")), version("2.0.0", Some(">=0.4.0")), version("1.5.0", None)],
        package_metadata(),
    );
    let d = package_document(p);
    assert_eq!(d.id, "net");
    assert_eq!(d.name, "Net");
    assert_eq!(d.readme, "= Net");
    assert_eq!(d.tags, vec!["net".to_string()]);
    assert_eq!(d.versions, vec!["2.0.0".to_string(), "1.5.0".to_string(), "1.0.0".to_string()]);
    assert_eq!(d.version_data.len(), d.versions.len());
    let fins: Vec<Option<String>> = d.version_data.iter().map(|b| decode(b).unwrap().fin_version).collect();
    assert_eq!(fins, vec![Some(">=0.4.0".to_string()), None, Some(">=0.3.0".to_string())]);
    let first = decode(&d.version_data[0]).unwrap();
    assert_eq!(first.game_version, Some(">=1.0".to_string()));
    assert_eq!(first.mod_dependencies.len(), 1);
    assert_eq!(first.mod_dependencies[0].id, "libX");
    assert_eq!(first.mod_dependencies[0].version, Some("^1.2.0".to_string()));
}

#[test]
fn record_of_a_version() {
    let r = record_of(&version("1.0.0", Some(">=0.3.0")));
    assert_eq!(r.fin_version, Some(">=0.3.0".to_string()));
    assert_eq!(r.game_version, Some(">=1.0".to_string()));
}

#[test]
fn unreadable_requirement_rejects_version() {
    let v = PackageVersion::from_metadata(SemVer::parse("1.0.0").unwrap(), meta(Some("??"), vec![]));
    assert!(v.is_none());
    let v = PackageVersion::from_metadata(SemVer::parse("1.0.0").unwrap(), meta(None, vec![("libX", Some("bad req"))]));
    assert!(v.is_none());
    let v = PackageVersion::from_metadata(SemVer::parse("1.0.0").unwrap(), meta(None, vec![("libX", None)]));
    assert!(v.is_some());
}

#[test]
fn version_folders() {
    assert_eq!(version_of_folder("v1.2.3").map(|v| v.as_str().to_string()), Some("1.2.3".to_string()));
    assert!(version_of_folder("1.2.3").is_none());
    assert!(version_of_folder("vx").is_none());
    assert!(version_of_folder("").is_none());
    assert!(version_of_folder("metadata.toml").is_none());
}

#[test]
fn readme_dialect_order() {
    assert!(matches!(choose_readme(Some("a".into()), Some("m".into())), Some(Readme::ASCIIDOC(s)) if s == "a"));
    assert!(matches!(choose_readme(None, Some("m".into())), Some(Readme::Markdown(s)) if s == "m"));
    assert!(choose_readme(None, None).is_none());
    assert!(matches!(readme_or_empty(None, None), Readme::Markdown(s) if s.is_empty()));
    assert_eq!(Readme::Markdown("x".into()).text(), "x");
}

#[test]
fn schema_round_trip() {
    let (fields, schema) = build_schema();
    assert_eq!(fields.len(), 8);
    assert_eq!(fields[0].name, "id");
    assert_eq!(fields[0].kind, FieldKind::Keyword);
    assert!(fields[0].stored && fields[0].fast);
    let options: Vec<(FieldKind, bool, bool)> = fields.iter().map(|f| (match f.kind { FieldKind::Text => FieldKind::Text, FieldKind::Keyword => FieldKind::Keyword, FieldKind::Bytes => FieldKind::Bytes }, f.stored, f.fast)).collect();
    assert_eq!(
        options,
        vec![
            (FieldKind::Keyword, true, true),
            (FieldKind::Text, false, false),
            (FieldKind::Text, false, false),
            (FieldKind::Text, false, false),
            (FieldKind::Keyword, false, false),
            (FieldKind::Keyword, false, false),
            (FieldKind::Keyword, true, false),
            (FieldKind::Bytes, true, true),
        ]
    );
    let names: Vec<String> = fields.iter().map(|f| f.name.clone()).collect();
    assert_eq!(load_schema(&names), Ok(schema));
}

#[test]
fn schema_loads_by_name() {
    let names: Vec<String> = ["version_data", "versions", "authors", "tags", "readme", "short_description", "name", "id", "extra"]
        .iter()
        .map(|s| s.to_string())
        .collect();
    assert_eq!(
        load_schema(&names),
        Ok(PackageSchema { id: 7, name: 6, short_description: 5, readme: 4, tags: 3, authors: 2, versions: 1, version_data: 0 })
    );
}

#[test]
fn schema_missing_field() {
    let names: Vec<String> = ["id", "name", "short_description", "readme", "tags", "authors", "versions"]
        .iter()
        .map(|s| s.to_string())
        .collect();
    assert_eq!(load_schema(&names), Err(FieldNotFound { name: "version_data".to_string() }));
}
