use dshe::import::{
    collect_files, parallelism, plan_import, sort_by_name, total_size, write_overall_message, ImportAction,
    ImportError, ImportEvent, ImportItem, ImportedFile, WalkEntry, MIN_IMPORT_BAR_BYTES,
};
use dshe::paths::{get_export_path, same_path};

fn file(path: &str) -> WalkEntry {
    WalkEntry::File(path.as_bytes().to_vec())
}

fn imported(name: &str, size: u64) -> ImportedFile {
    ImportedFile { name: name.to_string(), hash: [size as u8; 32], size }
}

#[test]
fn the_user_decides_the_parallelism() {
    assert_eq!(parallelism(Some(3), Some(8)), 3);
    assert_eq!(parallelism(Some(0), None), 0);
    assert_eq!(parallelism(None, Some(8)), 8);
    assert_eq!(parallelism(None, None), 1);
}

#[test]
fn files_are_named_from_the_directory_above() {
    let entries = [WalkEntry::Other, file("/srv/data/b/x"), WalkEntry::Other, file("/srv/data/a")];
    let sources = plan_import(b"/srv/data", b"/srv/data", &entries).unwrap();
    let names: Vec<&str> = sources.iter().map(|s| s.name.as_str()).collect();
    assert_eq!(names, vec!["data/b/x", "data/a"]);
    assert_eq!(sources[0].path, b"/srv/data/b/x".to_vec());
}

#[test]
fn a_single_file_has_its_own_name() {
    let sources = plan_import(b"/srv/somefile.bin", b"/srv/somefile.bin", &[file("/srv/somefile.bin")]).unwrap();
    assert_eq!(sources.len(), 1);
    assert_eq!(sources[0].name, "somefile.bin");
    assert!(plan_import(b"/srv/empty", b"/srv/empty", &[WalkEntry::Other]).unwrap().is_empty());
}

#[test]
fn the_given_path_names_what_a_link_points_to() {
    let sources = plan_import(b"links/mine", b"/srv/data", &[file("/srv/data/a"), file("/srv/data/b/x")]).unwrap();
    let names: Vec<&str> = sources.iter().map(|s| s.name.as_str()).collect();
    assert_eq!(names, vec!["mine/a", "mine/b/x"]);
    assert_eq!(sources[1].path, b"/srv/data/b/x".to_vec());
    let sources = plan_import(b"link.bin", b"/srv/somefile.bin", &[file("/srv/somefile.bin")]).unwrap();
    assert_eq!(sources[0].name, "link.bin");
    // a path that ends in no name takes that of the directory it stands for
    for given in [&b"."[..], b"..", b"sub/..", b""] {
        let sources = plan_import(given, b"/srv/data", &[file("/srv/data/a")]).unwrap();
        assert_eq!(sources[0].name, "data/a");
    }
}

#[test]
fn the_order_in_which_files_are_done_does_not_show() {
    let run = |order: [usize; 3]| {
        let mut files = vec![];
        for i in order {
            files.push([imported("d/b", 2), imported("d/a", 1), imported("d/c", 3)].into_iter().nth(i).unwrap());
        }
        let c = collect_files(files).unwrap();
        let entries: Vec<(String, [u8; 32])> = c.entries.into_iter().map(|e| (e.name, e.hash)).collect();
        (entries, c.size)
    };
    let expected = run([0, 1, 2]);
    assert_eq!(expected.1, 6);
    assert_eq!(expected.0[0], ("d/a".to_string(), [1; 32]));
    assert_eq!(run([0, 2, 1]), expected);
    assert_eq!(run([1, 0, 2]), expected);
    assert_eq!(run([1, 2, 0]), expected);
    assert_eq!(run([2, 0, 1]), expected);
    assert_eq!(run([2, 1, 0]), expected);
}

#[test]
fn the_first_fault_stops_the_import() {
    let e = plan_import(b"/", b"/", &[]).unwrap_err();
    assert!(matches!(e, ImportError::NoParent));
    assert_eq!(e.message(), "context get parent");
    let e = plan_import(b"/srv/a", b"/srv/a", &[file("/other/a"), WalkEntry::Failed("denied".to_string())]).unwrap_err();
    assert!(matches!(e, ImportError::Prefix));
    assert_eq!(e.message(), "prefix not found");
    let e = plan_import(b"/srv/a", b"/srv/a", &[file("/srv/a/x"), WalkEntry::Failed("denied".to_string())]).unwrap_err();
    assert_eq!(e.message(), "denied");
    let e = plan_import(b"/srv/a", b"/srv/a", &[file("/srv/a/x\\y"), WalkEntry::Failed("denied".to_string())]).unwrap_err();
    assert_eq!(e.message(), "invalid path component \"x\\\\y\"");
}

#[test]
fn shared_files_land_at_the_same_place() {
    let sources = plan_import(b"/srv/data", b"/srv/data", &[file("/srv/data/dir-1/sub/f")]).unwrap();
    let there = get_export_path(b"/home/u/in", &sources[0].name).unwrap();
    assert!(same_path(&there, b"/home/u/in/data/dir-1/sub/f"));
}

#[test]
fn one_bar_for_several_files() {
    assert_eq!(write_overall_message(0), None);
    assert_eq!(write_overall_message(1), None);
    assert_eq!(write_overall_message(25).unwrap(), "importing 25 files");
}

#[test]
fn a_small_file_has_no_bar() {
    let mut item = ImportItem::new("f");
    assert!(matches!(item.handle(ImportEvent::Size(MIN_IMPORT_BAR_BYTES)), ImportAction::Nothing));
    assert!(matches!(item.handle(ImportEvent::CopyProgress(5)), ImportAction::Nothing));
    assert!(matches!(item.handle(ImportEvent::CopyDone), ImportAction::Nothing));
    assert!(matches!(item.handle(ImportEvent::OutboardProgress(5)), ImportAction::Nothing));
    assert!(matches!(
        item.handle(ImportEvent::Done),
        ImportAction::Finish { clear: false, size: 8388608 }
    ));
}

#[test]
fn a_large_file_has_a_bar() {
    let mut item = ImportItem::new("f");
    let size = MIN_IMPORT_BAR_BYTES + 1;
    match item.handle(ImportEvent::Size(size)) {
        ImportAction::Open { message, length } => {
            assert_eq!(message, "copying f");
            assert_eq!(length, size);
        }
        other => panic!("{other:?}"),
    }
    assert!(matches!(item.handle(ImportEvent::CopyProgress(5)), ImportAction::Move { position: 5 }));
    match item.handle(ImportEvent::CopyDone) {
        ImportAction::Restart { message } => assert_eq!(message, "computing outboard f"),
        other => panic!("{other:?}"),
    }
    assert!(matches!(item.handle(ImportEvent::OutboardProgress(6)), ImportAction::Move { position: 6 }));
    match item.handle(ImportEvent::Done) {
        ImportAction::Finish { clear, size: s } => assert_eq!((clear, s), (true, size)),
        other => panic!("{other:?}"),
    }
}

#[test]
fn an_import_can_fail() {
    let mut item = ImportItem::new("f");
    match item.handle(ImportEvent::Error("disk".to_string())) {
        ImportAction::Fail { clear, message } => {
            assert!(!clear);
            assert_eq!(message, "error importing f: disk");
        }
        other => panic!("{other:?}"),
    }
    item.handle(ImportEvent::Size(MIN_IMPORT_BAR_BYTES * 2));
    assert!(matches!(
        item.handle(ImportEvent::Error("disk".to_string())),
        ImportAction::Fail { clear: true, .. }
    ));
    match item.handle(ImportEvent::Ended) {
        ImportAction::Fail { clear, message } => {
            assert!(!clear);
            assert_eq!(message, "import stream ended without a tag");
        }
        other => panic!("{other:?}"),
    }
}

#[test]
fn sorting_is_by_name_and_stable() {
    let names = ["b", "a/z", "a", "b", "ä", "B", "a.b", "b", ""];
    let files: Vec<ImportedFile> = names.iter().enumerate().map(|(i, n)| imported(n, i as u64)).collect();
    let mut expected: Vec<(String, u64)> = files.iter().map(|f| (f.name.clone(), f.size)).collect();
    expected.sort_by(|(a, _), (b, _)| a.cmp(b));
    let sorted: Vec<(String, u64)> = sort_by_name(files).into_iter().map(|f| (f.name, f.size)).collect();
    assert_eq!(sorted, expected);
}

#[test]
fn many_files_are_sorted_in_reasonable_time() {
    let files: Vec<ImportedFile> =
        (0..20000u64).map(|i| imported(&format!("dir/{}", (i * 7919) % 20011), i)).collect();
    let sorted = sort_by_name(files);
    assert_eq!(sorted.len(), 20000);
    assert!(sorted.windows(2).all(|w| w[0].name <= w[1].name));
}

#[test]
fn sizes_are_added_up() {
    assert_eq!(total_size(&[]), Some(0));
    assert_eq!(total_size(&[imported("a", 3), imported("b", 4)]), Some(7));
    assert_eq!(total_size(&[imported("a", u64::MAX), imported("b", 1)]), None);
}

#[test]
fn files_make_a_collection() {
    let c = collect_files(vec![imported("b", 3), imported("a", 4)]).unwrap();
    assert_eq!(c.size, 7);
    let names: Vec<&str> = c.entries.iter().map(|e| e.name.as_str()).collect();
    assert_eq!(names, vec!["a", "b"]);
    assert_eq!(c.entries[0].hash, [4u8; 32]);
    assert!(collect_files(vec![imported("b", u64::MAX), imported("a", 1)]).is_none());
}
