use std::io::{Cursor, Write};

use fleetreach::mirror::{
    archive_records, gather_records, is_record_file, names_record, ArchiveError, Entry,
};
use zip::write::SimpleFileOptions;
use zip::{CompressionMethod, ZipWriter};

fn archive(files: &[(&str, &[u8])], method: CompressionMethod) -> Vec<u8> {
    let mut w = ZipWriter::new(Cursor::new(Vec::new()));
    let options = SimpleFileOptions::default().compression_method(method);
    for (name, body) in files {
        w.start_file(*name, options).unwrap();
        w.write_all(body).unwrap();
    }
    w.finish().unwrap().into_inner()
}

#[test]
fn the_records_of_an_archive_come_in_its_order() {
    let files: [(&str, &[u8]); 4] = [
        ("b.json", b"{\"id\":\"B\"}"),
        ("README.md", &[0xff, 0xfe]),
        ("deep/a.json", "{\"id\":\"\u{e9}\"}".as_bytes()),
        (".json", b"{}"),
    ];
    for method in [CompressionMethod::Stored, CompressionMethod::Deflated] {
        assert_eq!(
            archive_records(&archive(&files, method)),
            Ok(vec![
                "{\"id\":\"B\"}".to_string(),
                "{\"id\":\"\u{e9}\"}".to_string(),
                "{}".to_string(),
            ])
        );
    }
    assert_eq!(
        archive_records(&archive(&[], CompressionMethod::Stored)),
        Ok(vec![])
    );
}

#[test]
fn an_archive_that_cannot_be_read_fails_as_a_whole() {
    assert!(matches!(
        archive_records(&b"not an archive".to_vec()),
        Err(ArchiveError::Archive(_))
    ));
    let not_text: [(&str, &[u8]); 2] = [("a.json", b"{}"), ("b.json", &[0xff, 0xfe])];
    assert_eq!(
        archive_records(&archive(&not_text, CompressionMethod::Stored)),
        Err(ArchiveError::Read(
            "stream did not contain valid UTF-8".to_string()
        ))
    );
    // A byte that is not the one that was packed.
    let mut changed = archive(&[("a.json", b"{}")], CompressionMethod::Stored);
    let at = changed.windows(2).position(|w| w == b"{}").unwrap();
    changed[at] = b'[';
    assert_eq!(
        archive_records(&changed),
        Err(ArchiveError::Read("Invalid checksum".to_string()))
    );
}

#[test]
fn a_failed_entry_fails_what_is_gathered() {
    let record = |t: &str| Entry::Record(t.to_string());
    let failed = |t: &str| Entry::Failed(ArchiveError::Archive(t.to_string()));
    assert_eq!(
        gather_records(vec![record("b"), Entry::Other, record("a")]),
        Ok(vec!["b".to_string(), "a".to_string()])
    );
    assert_eq!(
        gather_records(vec![record("a"), failed("first"), record("b"), failed("second")]),
        Err(ArchiveError::Archive("first".to_string()))
    );
    assert_eq!(gather_records(vec![]), Ok(vec![]));
}

#[test]
fn records_are_known_by_their_names() {
    assert!(is_record_file("GHSA-1.json"));
    assert!(is_record_file("a.b.json"));
    assert!(!is_record_file(".json"));
    assert!(!is_record_file("a.JSON"));
    assert!(!is_record_file("a.json.bak"));
    assert!(!is_record_file("json"));
    assert!(names_record("deep/GHSA-1.json"));
    assert!(names_record(".json"));
    assert!(!names_record("json"));
    assert!(!names_record("a.json/"));
}
