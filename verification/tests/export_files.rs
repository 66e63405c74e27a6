use dshe::export::{ExportAction, ExportEvent, Exporter};
use dshe::import::CollectionEntry;

fn entries(names: &[&str]) -> Vec<CollectionEntry> {
    names
        .iter()
        .enumerate()
        .map(|(i, name)| CollectionEntry { name: name.to_string(), hash: [i as u8 + 1; 32] })
        .collect()
}

#[test]
fn files_are_written_in_order() {
    let mut e = Exporter::new(b"/dest", entries(&["a/b", "c"]));
    assert_eq!(e.len(), 2);
    let t = e.next_target().unwrap();
    assert_eq!((t.index, t.name.as_str(), t.hash), (0, "a/b", [1; 32]));
    assert_eq!(t.path, b"/dest/a/b".to_vec());
    assert_eq!(t.message, "exporting a/b");
    let t = e.next_target().unwrap();
    assert_eq!((t.index, t.hash, t.path), (1, [2; 32], b"/dest/c".to_vec()));
    assert!(e.next_target().is_none());
    assert!(e.next_target().is_none());
}

#[test]
fn nothing_is_written_over() {
    let mut e = Exporter::new(b"/dest", entries(&["c"]));
    let t = e.next_target().unwrap();
    assert!(t.check(false, "/dest/c").is_ok());
    let r = t.check(true, "/dest/c").unwrap_err();
    assert_eq!(r.note, "target /dest/c already exists. Export stopped.");
    assert_eq!(
        r.hint,
        "You can remove the file or directory and try again. The download will not be repeated."
    );
    assert_eq!(r.error, "target /dest/c already exists");
}

#[test]
fn the_bar_of_a_file_follows_its_export() {
    let mut e = Exporter::new(b"/dest", entries(&["c"]));
    let t = e.next_target().unwrap();
    assert!(matches!(t.handle(ExportEvent::Size(9)), ExportAction::Length(9)));
    assert!(matches!(t.handle(ExportEvent::CopyProgress(4)), ExportAction::Move(4)));
    assert!(matches!(t.handle(ExportEvent::Done), ExportAction::Clear));
    match t.handle(ExportEvent::Error("disk full".to_string())) {
        ExportAction::Fail(m) => assert_eq!(m, "error exporting c: disk full"),
        other => panic!("{other:?}"),
    }
}
