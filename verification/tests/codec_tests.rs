use update_store::codec::{decode_descriptor, encode_descriptor};
use update_store::descriptor::UpdateDescriptor;

fn sample() -> UpdateDescriptor {
    UpdateDescriptor {
        mpak_id: "pkg-001".to_string(),
        mpak_download_url: "http://updates.example/pkg-001.mpak".to_string(),
        name: "core firmware".to_string(),
        version: "1.2.3".to_string(),
        size: 123456,
        retrieved: false,
        applied: false,
    }
}

#[test]
fn encode_has_exact_expected_text() {
    let text = encode_descriptor(&sample());
    assert_eq!(
        text,
        "{\"mpak_id\":\"pkg-001\",\"mpak_download_url\":\"http://updates.example/pkg-001.mpak\",\"name\":\"core firmware\",\"version\":\"1.2.3\",\"size\":123456,\"retrieved\":false,\"applied\":false}"
    );
}

#[test]
fn encode_is_deterministic_for_same_state() {
    let a = encode_descriptor(&sample());
    let b = encode_descriptor(&sample());
    assert_eq!(a, b);
}

#[test]
fn decode_round_trips_plain_descriptor() {
    let d = sample();
    let text = encode_descriptor(&d);
    let back = decode_descriptor(text.as_str()).expect("round trip must parse");
    assert_eq!(back.mpak_id, d.mpak_id);
    assert_eq!(back.mpak_download_url, d.mpak_download_url);
    assert_eq!(back.name, d.name);
    assert_eq!(back.version, d.version);
    assert_eq!(back.size, d.size);
    assert_eq!(back.retrieved, d.retrieved);
    assert_eq!(back.applied, d.applied);
}

#[test]
fn decode_round_trips_escaped_text_and_flags() {
    let d = UpdateDescriptor {
        mpak_id: "id-2".to_string(),
        mpak_download_url: "srv/path?q=\"x\"".to_string(),
        name: "quote \" and back\\slash".to_string(),
        version: "".to_string(),
        size: u64::MAX,
        retrieved: true,
        applied: true,
    };
    let text = encode_descriptor(&d);
    let back = decode_descriptor(text.as_str()).expect("escaped round trip must parse");
    assert_eq!(back.mpak_download_url, d.mpak_download_url);
    assert_eq!(back.name, d.name);
    assert_eq!(back.version, d.version);
    assert_eq!(back.size, d.size);
    assert!(back.retrieved);
    assert!(back.applied);
}

#[test]
fn decode_rejects_corrupt_texts() {
    assert!(decode_descriptor("").is_none());
    assert!(decode_descriptor("not json at all").is_none());
    assert!(decode_descriptor("{\"mpak_id\":\"x\"").is_none());
    assert!(decode_descriptor("{\"mpak_id\":\"x\",\"mpak_download_url\":\"u\",\"name\":\"n\",\"version\":\"v\",\"size\":18446744073709551616,\"retrieved\":false,\"applied\":false}").is_none());
    let good = encode_descriptor(&sample());
    let mut with_tail = good.clone();
    with_tail.push(' ');
    assert!(decode_descriptor(with_tail.as_str()).is_none());
}
