use std::io::{Cursor, Write};
use update_store::archive::{plan_extract, FsAction};
use update_store::errors::StoreError;
use zip::write::SimpleFileOptions;
use zip::ZipWriter;

fn sample_archive() -> Vec<u8> {
    let mut w = ZipWriter::new(Cursor::new(Vec::new()));
    let options = SimpleFileOptions::default();
    w.add_directory("a/", options).unwrap();
    w.start_file("a/b.txt", options).unwrap();
    w.write_all(b"payload bytes").unwrap();
    w.finish().unwrap().into_inner()
}

#[test]
fn plan_recreates_directory_and_file_tree() {
    let bytes = sample_archive();
    let actions = plan_extract(bytes, &"/dest".to_string()).unwrap();
    assert_eq!(actions.len(), 3);
    match &actions[0] {
        FsAction::CreateDirAll(p) => assert_eq!(p, "/dest/a/"),
        _ => panic!("first step must create the directory entry"),
    }
    match &actions[1] {
        FsAction::CreateDirAll(p) => assert_eq!(p, "/dest/a"),
        _ => panic!("second step must create the file's parent"),
    }
    match &actions[2] {
        FsAction::WriteFile(p, data) => {
            assert_eq!(p, "/dest/a/b.txt");
            assert_eq!(data, b"payload bytes");
        },
        _ => panic!("third step must write the file"),
    }
}

#[test]
fn plan_of_empty_archive_is_empty() {
    let w = ZipWriter::new(Cursor::new(Vec::new()));
    let bytes = w.finish().unwrap().into_inner();
    let actions = plan_extract(bytes, &"/dest".to_string()).unwrap();
    assert!(actions.is_empty());
}

#[test]
fn corrupt_payload_is_an_archive_error() {
    let r = plan_extract(vec![1, 2, 3, 4, 5], &"/dest".to_string());
    assert!(matches!(r, Err(StoreError::ArchiveError(_))));
}
