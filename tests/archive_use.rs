use std::io::{Cursor, Write};

use ziputil::archive::{destination_dir, is_dir_entry, Archive, ArchiveError, Extraction};
use ziputil::command::{Command, Progress, Step};
use ziputil::filter::Filter;
use ziputil::selection::SelectionError;
use zip::result::ZipError;
use zip::write::FileOptions;
use zip::ZipWriter;

fn build(entries: &[(&str, &[u8])]) -> Vec<u8> {
    let mut w = ZipWriter::new(Cursor::new(Vec::new()));
    for (name, data) in entries {
        if name.ends_with('/') {
            w.add_directory(*name, FileOptions::default()).unwrap();
        } else {
            w.start_file(*name, FileOptions::default()).unwrap();
            w.write_all(data).unwrap();
        }
    }
    w.finish().unwrap().into_inner()
}

fn sample() -> Archive {
    let bytes = build(&[
        ("a/b.txt", b"first file\n"),
        ("a/c.txt", b"second file\n"),
        ("readme.md", b"# readme\n"),
    ]);
    Archive::open(bytes).unwrap()
}

fn words(ws: &[&str]) -> Vec<String> {
    ws.iter().map(|w| w.to_string()).collect()
}

#[test]
fn names_in_archive_order() {
    let mut a = sample();
    assert_eq!(a.len(), 3);
    assert_eq!(a.entry_names().unwrap(), words(&["a/b.txt", "a/c.txt", "readme.md"]));
}

#[test]
fn scenario_match_then_view_first() {
    let mut a = sample();
    let f = Filter::new(false, false, words(&["a", "txt"]));
    let matches = f.filter_zip_by_name(&mut a).unwrap().unwrap();
    assert_eq!(matches, words(&["a/b.txt", "a/c.txt"]));

    let view = Command::View;
    assert!(matches!(view.execute(&matches, Progress::Started), Step::ShowMatches));
    assert!(matches!(view.execute(&matches, Progress::Listed), Step::AskSelection));
    let chosen = match view.execute(&matches, Progress::Typed("0".to_string())) {
        Step::View(v) => v,
        other => panic!("unexpected step {:?}", other),
    };
    assert_eq!(chosen, words(&["a/b.txt"]));
    let shown = a.view_entry(&chosen, 0).unwrap();
    assert_eq!(shown.header, "a/b.txt");
    assert_eq!(shown.data, b"first file\n".to_vec());
    assert!(!shown.separator);
    assert!(matches!(view.execute(&matches, Progress::Done), Step::Finish));
}

#[test]
fn no_match_gives_none() {
    let mut a = sample();
    let f = Filter::new(false, false, words(&["nothing-like-this"]));
    assert!(f.filter_zip_by_name(&mut a).unwrap().is_none());
}

#[test]
fn listing_twice_is_the_same() {
    let mut a = sample();
    let f = Filter::new(true, false, words(&["md", "c.t"]));
    let first = f.filter_zip_by_name(&mut a).unwrap();
    let second = f.filter_zip_by_name(&mut a).unwrap();
    assert_eq!(first, second);
    assert_eq!(first.unwrap(), words(&["a/c.txt", "readme.md"]));
}

#[test]
fn extracting_every_match_keeps_bytes() {
    let mut a = sample();
    let f = Filter::new(false, false, vec![]);
    let matches = f.filter_zip_by_name(&mut a).unwrap().unwrap();
    let all = match Command::Choose.execute(&matches, Progress::Typed("0-2".to_string())) {
        Step::Extract(v) => v,
        other => panic!("unexpected step {:?}", other),
    };
    assert_eq!(all, matches);
    let dest = destination_dir("sample.zip");
    let expected: [(&str, &str, &[u8]); 3] = [
        ("extracted_from_sample.zip/a", "extracted_from_sample.zip/a/b.txt", b"first file\n"),
        ("extracted_from_sample.zip/a", "extracted_from_sample.zip/a/c.txt", b"second file\n"),
        ("extracted_from_sample.zip", "extracted_from_sample.zip/readme.md", b"# readme\n"),
    ];
    for (name, (edir, epath, edata)) in all.iter().zip(expected.iter()) {
        match a.extraction(&dest, name).unwrap() {
            Extraction::File { dir, path, data } => {
                assert_eq!(dir, *edir);
                assert_eq!(path, *epath);
                assert_eq!(data, edata.to_vec());
            }
            other => panic!("unexpected {:?}", other),
        }
    }
}

#[test]
fn extract_command_takes_every_match() {
    let m = words(&["x", "y"]);
    match Command::Extract.execute(&m, Progress::Started) {
        Step::Extract(v) => assert_eq!(v, m),
        other => panic!("unexpected step {:?}", other),
    }
    assert!(matches!(Command::Extract.execute(&m, Progress::Done), Step::Finish));
}

#[test]
fn list_command_only_shows() {
    let m = words(&["x"]);
    assert!(matches!(Command::List.execute(&m, Progress::Started), Step::ShowMatches));
    assert!(matches!(Command::List.execute(&m, Progress::Listed), Step::Finish));
}

#[test]
fn picked_names_pass_through_in_picker_order() {
    let m = words(&["x", "y", "z"]);
    match Command::Choose.execute(&m, Progress::Picked(words(&["z", "x"]))) {
        Step::Extract(v) => assert_eq!(v, words(&["z", "x"])),
        other => panic!("unexpected step {:?}", other),
    }
    match Command::View.execute(&m, Progress::Picked(vec![])) {
        Step::View(v) => assert!(v.is_empty()),
        other => panic!("unexpected step {:?}", other),
    }
}

#[test]
fn typed_selection_errors_are_refused() {
    let m = words(&["x", "y"]);
    assert!(matches!(
        Command::Choose.execute(&m, Progress::Typed("5".to_string())),
        Step::Refuse(SelectionError::OutOfRange(0))
    ));
    assert!(matches!(
        Command::View.execute(&m, Progress::Typed("1-0".to_string())),
        Step::Refuse(SelectionError::Malformed(0))
    ));
}

#[test]
fn directory_entries() {
    let bytes = build(&[("docs/", b""), ("docs/x/y.txt", b"y")]);
    let mut a = Archive::open(bytes).unwrap();
    let names = a.entry_names().unwrap();
    assert_eq!(names, words(&["docs/", "docs/x/y.txt"]));
    match a.extraction("out", "docs/").unwrap() {
        Extraction::Directory { path } => assert_eq!(path, "out/docs/"),
        other => panic!("unexpected {:?}", other),
    }
    match a.extraction("out", "docs/x/y.txt").unwrap() {
        Extraction::File { dir, path, data } => {
            assert_eq!(dir, "out/docs/x");
            assert_eq!(path, "out/docs/x/y.txt");
            assert_eq!(data, b"y".to_vec());
        }
        other => panic!("unexpected {:?}", other),
    }
    assert!(matches!(a.view_entry(&names, 0), Err(ArchiveError::IsDirectory)));
    let shown = a.view_entry(&names, 1).unwrap();
    assert_eq!(shown.data, b"y".to_vec());
}

#[test]
fn separator_between_entries_only() {
    let mut a = sample();
    let sel = words(&["readme.md", "a/b.txt"]);
    assert!(a.view_entry(&sel, 0).unwrap().separator);
    assert!(!a.view_entry(&sel, 1).unwrap().separator);
}

#[test]
fn missing_entry_is_an_entry_error() {
    let mut a = sample();
    assert!(matches!(a.read("nope.txt"), Err(ArchiveError::Entry(_))));
    assert!(matches!(a.extraction("out", "nope.txt"), Err(ArchiveError::Entry(_))));
}

#[test]
fn read_gives_decompressed_bytes() {
    let mut a = sample();
    assert_eq!(a.read("readme.md").unwrap(), b"# readme\n".to_vec());
}

#[test]
fn garbage_is_not_an_archive() {
    assert!(matches!(Archive::open(b"not a zip".to_vec()), Err(ArchiveError::Open(_))));
    assert!(matches!(Archive::open(vec![]), Err(ArchiveError::Open(_))));
}

#[test]
fn empty_archive_has_no_names() {
    let mut a = Archive::open(build(&[])).unwrap();
    assert_eq!(a.len(), 0);
    assert!(a.entry_names().unwrap().is_empty());
    let f = Filter::new(false, false, vec![]);
    assert!(f.filter_zip_by_name(&mut a).unwrap().is_none());
}

#[test]
fn directory_names() {
    assert!(is_dir_entry("a/"));
    assert!(is_dir_entry("a\\"));
    assert!(!is_dir_entry("a/b"));
    assert!(!is_dir_entry(""));
}

#[test]
fn destination_from_archive_name() {
    assert_eq!(destination_dir("photos.zip"), "extracted_from_photos.zip");
}

/// An entry whose extra field marks it as AES-protected while its
/// encryption flag is clear: the crate refuses it with a password error.
fn aes_marked_entry() -> Vec<u8> {
    let mut w = ZipWriter::new(Cursor::new(Vec::new()));
    let options = FileOptions::default().compression_method(zip::CompressionMethod::Stored);
    w.start_file_with_extra_data("aes.txt", options).unwrap();
    // placeholder field id 0xbeef, length 7, AE-2 / "AE" / AES-128 / stored
    w.write_all(&[0xef, 0xbe, 7, 0, 2, 0, 0x41, 0x45, 1, 0, 0]).unwrap();
    w.end_extra_data().unwrap();
    w.write_all(b"secret").unwrap();
    w.start_file("plain.txt", options).unwrap();
    w.write_all(b"open").unwrap();
    let mut bytes = w.finish().unwrap().into_inner();
    let mut patched = 0;
    for i in 0..bytes.len() - 3 {
        if bytes[i..i + 4] == [0xef, 0xbe, 7, 0] {
            bytes[i] = 0x01;
            bytes[i + 1] = 0x99;
            patched += 1;
        }
    }
    assert_eq!(patched, 2);
    bytes
}

#[test]
fn aes_marked_entry_is_an_error_not_a_panic() {
    let mut a = Archive::open(aes_marked_entry()).unwrap();
    assert_eq!(a.entry_names().unwrap(), words(&["aes.txt", "plain.txt"]));
    match a.read("aes.txt") {
        Err(ArchiveError::Entry(ZipError::UnsupportedArchive(m))) => {
            assert_eq!(m, ZipError::PASSWORD_REQUIRED)
        }
        other => panic!("unexpected {:?}", other),
    }
    assert!(matches!(a.extraction("out", "aes.txt"), Err(ArchiveError::Entry(_))));
    assert!(matches!(a.view_entry(&words(&["aes.txt"]), 0), Err(ArchiveError::Entry(_))));
    assert_eq!(a.read("plain.txt").unwrap(), b"open".to_vec());
}
