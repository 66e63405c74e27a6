use dshe::args::{ClipboardPlan, CommonArgs, SendArgs, SendMode, ShareEvent, ShareStep};
use dshe::background::{
    background_report, fresh_ticket_file_name, ticket_in, wait_step, write_ticket_file_name, Wait,
    TICKET_POLL_MS, TICKET_WAIT_SECS,
};
use dshe::import::CollectionEntry;
use dshe::options::{AddrInfoOptions, Format, RelayModeOption};
use dshe::send::{
    command_line, file_lines, plan_send, share_report, share_report_of, SendNames, SendRefusal, SendSite,
    Share, ShareLine,
};

fn common() -> CommonArgs {
    CommonArgs {
        magic_ipv4_addr: None,
        magic_ipv6_addr: None,
        format: Format::Hex,
        verbose: 0,
        no_progress: false,
        relay: RelayModeOption::Default,
        show_secret: false,
        jobs: None,
    }
}

fn send_args(path: &str) -> SendArgs {
    SendArgs {
        path: path.as_bytes().to_vec(),
        ticket_type: AddrInfoOptions::RelayAndAddresses,
        common: common(),
        noarchive: false,
        qr: false,
        nostop: false,
        bg_stop: false,
        bg: false,
        debug: false,
        clipboard: false,
    }
}

fn site(exists: bool, is_dir: bool) -> SendSite {
    SendSite {
        cwd: b"/home/u".to_vec(),
        shown_cwd: "/home/u".to_string(),
        data_dir_exists: exists,
        is_dir,
    }
}

fn names() -> SendNames {
    SendNames::of([0xab; 32])
}

fn entry(name: &str, byte: u8) -> CollectionEntry {
    CollectionEntry { name: name.to_string(), hash: [byte; 32] }
}

fn line_text(l: &ShareLine) -> String {
    match l {
        ShareLine::Imported(r) => format!("{}<path>{}", r.before, r.after),
        ShareLine::Hash(s) => format!("  hash {s}"),
        ShareLine::File(s) => s.clone(),
        ShareLine::Speed => "speed".to_string(),
        ShareLine::Blank => String::new(),
        ShareLine::Command(c) => format!("{}{} {}", c.indent, c.program, c.rest),
    }
}

#[test]
fn names_carry_the_suffix() {
    let n = names();
    assert_eq!(n.data_dir, format!(".dashe-send-{}", "ab".repeat(16)));
    assert_eq!(n.archive_dir, format!("dashe-{}", "ab".repeat(8)));
    let a = SendNames::fresh();
    let b = SendNames::fresh();
    assert_ne!(a.data_dir, b.data_dir);
    assert_eq!(a.data_dir.len(), 44);
}

#[test]
fn a_file_is_sent_as_it_is() {
    let p = plan_send(&send_args("dir/somefile.bin"), &names(), &site(false, false)).unwrap();
    assert_eq!(p.share_name, "somefile.bin");
    assert!(p.archive.is_none());
}

#[test]
fn a_folder_is_packed() {
    let p = plan_send(&send_args("/srv/myfolder/"), &names(), &site(false, true)).unwrap();
    assert_eq!(p.share_name, "myfolder");
    let a = p.archive.unwrap();
    assert_eq!(a.dir, names().archive_dir);
    assert_eq!((a.file.as_str(), a.folder.as_str()), ("myfolder.tar.gz", "myfolder"));
    let mut args = send_args("/srv/myfolder");
    args.noarchive = true;
    assert!(plan_send(&args, &names(), &site(false, true)).unwrap().archive.is_none());
}

#[test]
fn some_paths_are_not_sent() {
    match plan_send(&send_args("x"), &names(), &site(true, false)) {
        Err(SendRefusal::Exit { line, code }) => {
            assert_eq!(line, "can not share twice from the same directory: /home/u");
            assert_eq!(code, 1);
        }
        other => panic!("{other:?}"),
    }
    for path in ["", ".", "/home/u", "/home/u/.", "./"] {
        match plan_send(&send_args(path), &names(), &site(false, true)) {
            Err(SendRefusal::Exit { line, code }) => {
                assert_eq!(line, "can not share from the current directory");
                assert_eq!(code, 1);
            }
            other => panic!("{path} {other:?}"),
        }
    }
    for path in ["..", "/"] {
        match plan_send(&send_args(path), &names(), &site(false, true)) {
            Err(SendRefusal::Error(e)) => assert_eq!(e, "invalid path name"),
            other => panic!("{path} {other:?}"),
        }
    }
}

#[test]
fn the_flags_decide_how_a_sender_runs() {
    let mut a = send_args("x");
    assert_eq!(a.mode(false), SendMode::Foreground);
    assert_eq!(a.mode(true), SendMode::Foreground);
    assert!(a.stops_after_transfer());
    a.nostop = true;
    assert!(!a.stops_after_transfer());
    a.nostop = false;
    a.bg = true;
    assert_eq!(a.mode(false), SendMode::Spawn);
    assert_eq!(a.mode(true), SendMode::Worker);
    assert!(!a.stops_after_transfer());
    a.bg = false;
    a.bg_stop = true;
    assert_eq!(a.mode(false), SendMode::Spawn);
    assert!(a.stops_after_transfer());
}

#[test]
fn a_sender_goes_on_or_stops() {
    let mut a = send_args("x");
    let stop = ShareStep::Stop { complete: true };
    assert_eq!(a.share_step(ShareEvent::Complete), stop);
    assert_eq!(a.share_step(ShareEvent::Closed), stop);
    assert_eq!(a.share_step(ShareEvent::Interrupted), ShareStep::Stop { complete: false });
    a.bg_stop = true;
    assert_eq!(a.share_step(ShareEvent::Complete), stop);
    for (nostop, bg) in [(true, false), (false, true), (true, true)] {
        a.nostop = nostop;
        a.bg = bg;
        assert_eq!(a.share_step(ShareEvent::Complete), ShareStep::GoOn);
        assert_eq!(a.share_step(ShareEvent::Closed), ShareStep::GoOn);
        assert_eq!(a.share_step(ShareEvent::Interrupted), ShareStep::Stop { complete: false });
    }
}

#[test]
fn details_are_shown_on_request() {
    let mut a = send_args("x");
    assert!(!a.shows_details());
    assert!(!a.common.prints_secret());
    a.common.verbose = 1;
    assert!(!a.shows_details());
    assert!(a.common.prints_secret());
    a.common.verbose = 2;
    assert!(a.shows_details());
    a.common.verbose = 0;
    a.debug = true;
    assert!(a.shows_details());
}

#[test]
fn the_clipboard_is_filled_on_request() {
    let mut a = send_args("x");
    assert_eq!(a.clipboard_plan(true), ClipboardPlan { copy: false, listen: true });
    assert_eq!(a.clipboard_plan(false), ClipboardPlan { copy: false, listen: false });
    a.clipboard = true;
    a.qr = true;
    assert_eq!(a.clipboard_plan(true), ClipboardPlan { copy: true, listen: false });
}

#[test]
fn a_share_is_reported() {
    let share = Share { is_file: false, archived: true, size: 1000588, hash: [1; 32], files: vec![entry("f", 2)] };
    let lines: Vec<String> =
        share_report(&send_args("myfolder"), &share, "blobx").iter().map(line_text).collect();
    assert_eq!(
        lines,
        vec!["imported folder (compressed) <path> (977.14 KiB)", "", "  dshe receive blobx"]
    );
}

#[test]
fn a_share_is_reported_in_detail() {
    let mut args = send_args("x");
    args.debug = true;
    let share = Share {
        is_file: false,
        archived: false,
        size: 5,
        hash: [1; 32],
        files: vec![entry("d/f", 2), entry("d/g", 3)],
    };
    let lines: Vec<String> = share_report_of(&args, &share, "5 B", "blobx").iter().map(line_text).collect();
    assert_eq!(
        lines,
        vec![
            "imported directory <path> (5 B)".to_string(),
            format!("  hash {}", "01".repeat(32)),
            format!("    {} d/f", "02".repeat(32)),
            format!("    {} d/g", "03".repeat(32)),
            "speed".to_string(),
            String::new(),
            "  dshe receive blobx".to_string(),
        ]
    );
    let file = Share { is_file: true, archived: false, size: 5, hash: [1; 32], files: vec![] };
    let lines: Vec<String> =
        share_report_of(&send_args("x"), &file, "5 B", "b").iter().map(line_text).collect();
    assert_eq!(lines[0], "imported file <path> (5 B)");
}

#[test]
fn the_ticket_is_found_in_the_command_line() {
    let c = command_line("blobabc");
    assert_eq!((c.indent.as_str(), c.program.as_str(), c.rest.as_str()), ("  ", "dshe", "receive blobabc"));
    let line = format!("{}{} {}", c.indent, c.program, c.rest);
    assert_eq!(line.trim().strip_prefix("dshe receive ").unwrap(), "blobabc");
}

#[test]
fn files_are_listed() {
    assert_eq!(file_lines(&[entry("a b", 0)], Format::Cid), vec![format!("    {} a b", "00".repeat(32))]);
    assert!(file_lines(&[], Format::Hex).is_empty());
}

#[test]
fn the_ticket_file_has_its_own_name() {
    assert_eq!(write_ticket_file_name(&[0x5; 32]), format!("dashe-ticket-{}.txt", "05".repeat(8)));
    assert_ne!(fresh_ticket_file_name(), fresh_ticket_file_name());
    assert_eq!((TICKET_WAIT_SECS, TICKET_POLL_MS), (30 * 60, 200));
}

#[test]
fn the_foreground_waits_for_the_ticket() {
    assert!(matches!(wait_step(None, false, false), Wait::Again));
    assert!(matches!(wait_step(Some(" \n"), false, false), Wait::Again));
    match wait_step(Some("blobx\n"), true, true) {
        Wait::Ready(t) => assert_eq!(t, "blobx"),
        other => panic!("{other:?}"),
    }
    match wait_step(Some(""), true, true) {
        Wait::Failed(e) => {
            assert_eq!(e, "background sender exited before sharing (bad path or setup failure)")
        }
        other => panic!("{other:?}"),
    }
    match wait_step(None, false, true) {
        Wait::Failed(e) => assert_eq!(e, "timed out waiting for the background sender"),
        other => panic!("{other:?}"),
    }
    assert_eq!(ticket_in(None), None);
    assert_eq!(ticket_in(Some(" b ")).unwrap(), "b");
}

#[test]
fn the_background_is_reported() {
    let r = background_report("blobx", 4321, true);
    assert_eq!(r.command, "dshe receive blobx");
    assert_eq!(
        r.note,
        "running in background (pid 4321, stops automatically after the first transfer; stop with: kill 4321))"
    );
    assert_eq!(
        background_report("blobx", 1, false).note,
        "running in background (pid 1, stops when killed; stop with: kill 1))"
    );
}
