use update_store::codec::encode_descriptor;
use update_store::descriptor::UpdateDescriptor;
use update_store::errors::StoreError;
use update_store::settings::Settings;
use update_store::store::{normalize_url, UpdateStore};

fn descriptor(id: &str, url: &str) -> UpdateDescriptor {
    UpdateDescriptor {
        mpak_id: id.to_string(),
        mpak_download_url: url.to_string(),
        name: "pkg".to_string(),
        version: "0.1".to_string(),
        size: 42,
        retrieved: false,
        applied: false,
    }
}

fn empty_store() -> UpdateStore {
    UpdateStore::new(Settings::initial(), "/data/updates".to_string(), Vec::new()).0
}

#[test]
fn add_then_get_returns_same_content_and_metadata_path() {
    let mut store = empty_store();
    let d = descriptor("u1", "srv/u1.mpak");
    let job = store.add(d);
    assert_eq!(job.dir_path, "/data/updates/u1");
    assert_eq!(job.file_path, "/data/updates/u1/info.json");
    assert_eq!(job.contents, encode_descriptor(&descriptor("u1", "srv/u1.mpak")));
    let got = store.get_message("u1".to_string()).expect("added id must be found");
    assert_eq!(got.mpak_id, "u1");
    assert_eq!(got.mpak_download_url, "srv/u1.mpak");
    assert_eq!(got.size, 42);
    assert!(!got.retrieved);
    assert!(!got.applied);
}

#[test]
fn add_overwrites_same_id() {
    let mut store = empty_store();
    store.add(descriptor("u1", "first"));
    store.add(descriptor("u1", "second"));
    assert_eq!(store.len(), 1);
    let got = store.get_message("u1".to_string()).unwrap();
    assert_eq!(got.mpak_download_url, "second");
}

#[test]
fn len_and_get_all_report_every_descriptor() {
    let mut store = empty_store();
    assert_eq!(store.len(), 0);
    store.add(descriptor("a", "ua"));
    store.add(descriptor("b", "ub"));
    assert_eq!(store.len(), 2);
    let all = store.get_all_messages();
    assert_eq!(all.len(), 2);
    let mut ids: Vec<String> = all.iter().map(|d| d.mpak_id.clone()).collect();
    ids.sort();
    assert_eq!(ids, vec!["a".to_string(), "b".to_string()]);
}

#[test]
fn get_message_unknown_id_is_none() {
    let store = empty_store();
    assert!(store.get_message("missing".to_string()).is_none());
}

#[test]
fn recovery_round_trip_is_order_independent() {
    let mut store = empty_store();
    let mut d1 = descriptor("one", "u1");
    d1.retrieved = true;
    let d2 = descriptor("two", "u2");
    let t1 = encode_descriptor(&d1);
    let t2 = encode_descriptor(&d2);

    for texts in [vec![t1.clone(), t2.clone()], vec![t2.clone(), t1.clone()]] {
        let (fresh, jobs) = UpdateStore::new(
            Settings::initial(),
            "/data/updates".to_string(),
            texts,
        );
        assert_eq!(fresh.len(), 2);
        assert_eq!(jobs.len(), 2);
        let one = fresh.get_message("one".to_string()).unwrap();
        assert!(one.retrieved);
        assert!(!one.applied);
        let two = fresh.get_message("two".to_string()).unwrap();
        assert!(!two.retrieved);
    }
    store.add(d1);
    store.add(d2);
    assert_eq!(store.len(), 2);
}

#[test]
fn corrupt_metadata_does_not_block_other_ids() {
    let good = encode_descriptor(&descriptor("ok-id", "u"));
    let texts = vec![
        "garbage {{".to_string(),
        good,
        "".to_string(),
    ];
    let (store, _jobs) = UpdateStore::new(Settings::initial(), "/r".to_string(), texts);
    assert_eq!(store.len(), 1);
    assert!(store.get_message("ok-id".to_string()).is_some());
}

#[test]
fn retrieve_plan_unknown_id_is_not_found() {
    let store = empty_store();
    let r = store.retrieve_plan(&"ghost".to_string());
    assert!(matches!(r, Err(StoreError::NotFound)));
}

#[test]
fn retrieve_plan_normalizes_url_and_names_payload() {
    let mut store = empty_store();
    store.add(descriptor("u1", "updates.example/u1.mpak"));
    let plan = store.retrieve_plan(&"u1".to_string()).unwrap();
    assert_eq!(plan.url, "http://updates.example/u1.mpak");
    assert_eq!(plan.payload_path, "/data/updates/u1/u1.mpak");
}

#[test]
fn normalize_url_keeps_http_prefixes() {
    assert_eq!(normalize_url(&"http://a/b".to_string()), "http://a/b");
    assert_eq!(normalize_url(&"https://a/b".to_string()), "https://a/b");
    assert_eq!(normalize_url(&"a/b".to_string()), "http://a/b");
}

#[test]
fn retrieve_commit_sets_flag_and_persists() {
    let mut store = empty_store();
    store.add(descriptor("u1", "srv/u"));
    let job = store.retrieve_commit(&"u1".to_string()).unwrap();
    let got = store.get_message("u1".to_string()).unwrap();
    assert!(got.retrieved);
    assert!(!got.applied);
    assert_eq!(job.file_path, "/data/updates/u1/info.json");
    let mut expect = descriptor("u1", "srv/u");
    expect.retrieved = true;
    assert_eq!(job.contents, encode_descriptor(&expect));
    assert!(matches!(
        store.retrieve_commit(&"nope".to_string()),
        Err(StoreError::NotFound)
    ));
}

#[test]
fn extract_requires_retrieved_payload() {
    let mut store = empty_store();
    store.add(descriptor("u1", "srv/u"));
    assert!(matches!(
        store.extract_begin(&"u1".to_string()),
        Err(StoreError::NotRetrieved)
    ));
    assert!(matches!(
        store.extract_begin(&"missing".to_string()),
        Err(StoreError::NotFound)
    ));
    store.retrieve_commit(&"u1".to_string()).unwrap();
    let path = store.extract_begin(&"u1".to_string()).unwrap();
    assert_eq!(path, "/data/updates/u1/u1.mpak");
    let job = store.extract_commit(&"u1".to_string()).unwrap();
    let got = store.get_message("u1".to_string()).unwrap();
    assert!(got.applied);
    assert!(got.retrieved);
    let mut expect = descriptor("u1", "srv/u");
    expect.retrieved = true;
    expect.applied = true;
    assert_eq!(job.contents, encode_descriptor(&expect));
}

#[test]
fn clear_empties_index_but_recovery_still_works() {
    let mut store = empty_store();
    let d = descriptor("keep", "u");
    let text = encode_descriptor(&d);
    store.add(d);
    assert_eq!(store.len(), 1);
    store.clear();
    assert_eq!(store.len(), 0);
    assert!(store.get_all_messages().is_empty());
    // the metadata text on disk is untouched: a fresh store still recovers it
    let (fresh, _) = UpdateStore::new(
        Settings::initial(),
        "/data/updates".to_string(),
        vec![text],
    );
    assert_eq!(fresh.len(), 1);
    assert!(fresh.get_message("keep".to_string()).is_some());
}

#[test]
fn recovery_skips_descriptor_with_unsafe_id() {
    // an id with a path separator cannot name a subdirectory safely
    let bad = descriptor("a/b", "u");
    let good = descriptor("fine", "u");
    let texts = vec![encode_descriptor(&bad), encode_descriptor(&good)];
    let (store, _) = UpdateStore::new(Settings::initial(), "/r".to_string(), texts);
    assert_eq!(store.len(), 1);
    assert!(store.get_message("fine".to_string()).is_some());
    assert!(store.get_message("a/b".to_string()).is_none());
}

#[test]
fn recovery_skips_descriptor_applied_without_retrieved() {
    let mut bad = descriptor("skipped", "u");
    bad.applied = true; // applied before retrieved violates the ordering
    let good = descriptor("kept", "u");
    let texts = vec![encode_descriptor(&bad), encode_descriptor(&good)];
    let (store, _) = UpdateStore::new(Settings::initial(), "/r".to_string(), texts);
    assert_eq!(store.len(), 1);
    assert!(store.get_message("kept".to_string()).is_some());
}
