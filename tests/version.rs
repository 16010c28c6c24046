use ficsit_networks_repository::version::{check_requirement, Requirement, SemVer};

fn v(s: &str) -> SemVer {
    SemVer::parse(s).expect("a version")
}

#[test]
fn parses_versions_and_keeps_their_text() {
    assert_eq!(v("1.2.3").as_str(), "1.2.3");
    assert_eq!(v("1.2.3-rc.1+build.5").as_str(), "1.2.3-rc.1+build.5");
    assert!(SemVer::parse("1.2").is_none());
    assert!(SemVer::parse("v1.2.3").is_none());
    assert!(SemVer::parse("1.0.01").is_none());
    assert!(SemVer::parse("").is_none());
}

#[test]
fn precedence_follows_semver() {
    let order = [
        "1.0.0-alpha",
        "1.0.0-alpha.1",
        "1.0.0-alpha.beta",
        "1.0.0-beta",
        "1.0.0-beta.2",
        "1.0.0-beta.11",
        "1.0.0-rc.1",
        "1.0.0",
        "1.0.1",
        "1.2.0",
        "2.0.0",
        "10.0.0",
    ];
    for i in 0..order.len() {
        for j in 0..order.len() {
            assert_eq!(v(order[i]).precedes(&v(order[j])), i < j, "{} vs {}", order[i], order[j]);
        }
    }
}

#[test]
fn build_metadata_does_not_count() {
    assert!(!v("1.0.0+a").precedes(&v("1.0.0+b")));
    assert!(!v("1.0.0+b").precedes(&v("1.0.0+a")));
}

#[test]
fn requirements_match_versions() {
    assert_eq!(check_requirement(">=1.0.0,<2.0.0", &v("1.5.0")), Some(true));
    assert_eq!(check_requirement(">=1.0.0,<2.0.0", &v("2.0.0")), Some(false));
    assert_eq!(check_requirement("^1.2.0", &v("1.3.0")), Some(true));
    assert_eq!(check_requirement("^1.2.0", &v("2.0.0")), Some(false));
    assert_eq!(check_requirement("not a requirement", &v("1.0.0")), None);
}

#[test]
fn requirement_keeps_its_text() {
    let r = Requirement::parse(">= 1.0").expect("a requirement");
    assert_eq!(r.as_str(), ">= 1.0");
    assert!(r.matches(&v("1.4.0")));
    assert!(!r.matches(&v("0.9.0")));
    assert!(Requirement::parse(">=a.b").is_none());
}
