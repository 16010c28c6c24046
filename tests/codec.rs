use ficsit_networks_repository::codec::{decode, encode, DecodeError, ModDependency, VersionData};

fn sample() -> VersionData {
    VersionData {
        fin_version: Some(">=1.0.0, <2.0.0".to_string()),
        game_version: None,
        mod_dependencies: vec![
            ModDependency { id: "libX".to_string(), version: Some("^1.2.0".to_string()) },
            ModDependency { id: "Ünïcødé".to_string(), version: None },
        ],
    }
}

fn same(a: &VersionData, b: &VersionData) -> bool {
    a.fin_version == b.fin_version
        && a.game_version == b.game_version
        && a.mod_dependencies.len() == b.mod_dependencies.len()
        && a.mod_dependencies
            .iter()
            .zip(b.mod_dependencies.iter())
            .all(|(x, y)| x.id == y.id && x.version == y.version)
}

#[test]
fn round_trip_sample_record() {
    let r = sample();
    let bytes = encode(&r);
    let back = decode(&bytes).expect("decodes");
    assert!(same(&r, &back));
}

#[test]
fn round_trip_empty_record() {
    let r = VersionData { fin_version: None, game_version: None, mod_dependencies: vec![] };
    let bytes = encode(&r);
    assert_eq!(bytes, vec![0, 0, 0, 0, 0, 0, 0, 0, 0, 0]);
    let back = decode(&bytes).expect("decodes");
    assert!(same(&r, &back));
}

#[test]
fn encoding_layout_of_a_text() {
    let r = VersionData { fin_version: Some("ab".to_string()), game_version: None, mod_dependencies: vec![] };
    let bytes = encode(&r);
    assert_eq!(bytes, vec![1, 2, 0, 0, 0, 0, 0, 0, 0, b'a', b'b', 0, 0, 0, 0, 0, 0, 0, 0, 0]);
}

#[test]
fn truncated_record_fails() {
    let bytes = encode(&sample());
    for cut in 0..bytes.len() {
        assert_eq!(decode(&bytes[..cut]).err(), Some(DecodeError));
    }
}

#[test]
fn trailing_byte_fails() {
    let mut bytes = encode(&sample());
    bytes.push(0);
    assert_eq!(decode(&bytes).err(), Some(DecodeError));
}

#[test]
fn unknown_tag_fails() {
    let mut bytes = encode(&sample());
    bytes[0] = 7;
    assert_eq!(decode(&bytes).err(), Some(DecodeError));
}

#[test]
fn invalid_utf8_fails() {
    let r = VersionData { fin_version: Some("ab".to_string()), game_version: None, mod_dependencies: vec![] };
    let mut bytes = encode(&r);
    bytes[9] = 0xff;
    assert_eq!(decode(&bytes).err(), Some(DecodeError));
}

#[test]
fn huge_length_fails_without_reading_past_the_end() {
    let bytes = vec![1, 255, 255, 255, 255, 255, 255, 255, 255, b'a'];
    assert_eq!(decode(&bytes).err(), Some(DecodeError));
}
