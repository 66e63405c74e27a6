use dshe::addr::SocketAddr;
use dshe::args::{
    after_confirmation, exit_code, Args, Commands, CommonArgs, Confirmed, Launch, ReceiveArgs, TicketSource,
};
use dshe::beacon::DiscoveredSender;
use dshe::download::{time_left, time_left_of, DownloadProgress, SAMPLE_NANOS};
use dshe::keys::{
    confirm_prompt, key_action, key_reply, line_means_yes, KeyAction, KeyAnswer, KeyEvent, KeyEventKind,
    KeyModifiers,
};
use dshe::options::{Format, RelayModeOption};
use dshe::pick::{choose_of, choose_sender, read_pick, Choice, SenderLine, SCAN_SECS};
use dshe::receive::{
    already_complete_line, complete_files, describe_received, downloaded_line, downloaded_line_of, ending,
    fetch_report, fetch_report_of, fetch_summary, get_step, received_line, received_line_of, show_get_error,
    write_cache_dir_name, FetchSummary, GetAction, GetEvent, GetFailure, Outcome,
};

fn receive_args(ticket: Option<&str>, scan: bool) -> ReceiveArgs {
    ReceiveArgs {
        ticket: ticket.map(String::from),
        scan,
        resume: false,
        dest: None,
        common: CommonArgs {
            magic_ipv4_addr: None,
            magic_ipv6_addr: None,
            format: Format::Hex,
            verbose: 0,
            no_progress: false,
            relay: RelayModeOption::Default,
            show_secret: false,
            jobs: None,
        },
    }
}

fn sender(name: &str, size: u64, addrs: &[&str]) -> DiscoveredSender {
    DiscoveredSender {
        endpoint_id: name.to_string(),
        hash: "h".to_string(),
        hash_seq: true,
        name: name.to_string(),
        size,
        addrs: addrs.iter().map(|a| SocketAddr::parse(a).unwrap()).collect(),
    }
}

fn whole(l: &SenderLine) -> String {
    format!("{}{}{}", l.before, l.name, l.after)
}

#[test]
fn a_ticket_is_given_or_scanned_for() {
    match receive_args(Some("blobx"), false).ticket_source() {
        TicketSource::Given(t) => assert_eq!(t, "blobx"),
        other => panic!("{other:?}"),
    }
    assert!(matches!(receive_args(None, true).ticket_source(), TicketSource::Scan));
    match receive_args(None, false).ticket_source() {
        TicketSource::Missing(e) => {
            assert_eq!(e, "provide a ticket, or use --scan to find senders on this network")
        }
        other => panic!("{other:?}"),
    }
}

#[test]
fn the_store_is_named_after_the_hash() {
    assert_eq!(write_cache_dir_name(&[0xcd; 32]), format!(".dashe-recv-{}", "cd".repeat(32)));
    assert_ne!(write_cache_dir_name(&[1; 32]), write_cache_dir_name(&[2; 32]));
}

#[test]
fn the_first_blob_is_no_file() {
    let f = fetch_summary(&[100, 7, 8]).unwrap();
    assert_eq!((f.total_size, f.payload_size, f.total_files), (115, 15, 2));
    let f = fetch_summary(&[]).unwrap();
    assert_eq!((f.total_size, f.payload_size, f.total_files), (0, 0, 0));
    let f = fetch_summary(&[9]).unwrap();
    assert_eq!((f.total_size, f.payload_size, f.total_files), (9, 0, 0));
    assert!(fetch_summary(&[u64::MAX, 1]).is_none());
    assert_eq!(complete_files(1), 0);
    assert_eq!(complete_files(6), 5);
}

#[test]
fn the_fetch_is_announced() {
    let r = fetch_report_of(1, 0, "5 B", "9 B");
    assert_eq!(r.line, " 1 file (5 B)");
    assert!(r.details.is_none());
    let r = fetch_report_of(0, 1, "0 B", "9 B");
    assert_eq!(r.line, " 0 files (0 B)");
    assert_eq!(r.details.unwrap(), "getting 1 blobs in total, 9 B");
    let s = FetchSummary { total_size: 2048, payload_size: 1024, total_files: 2 };
    let r = fetch_report(&s, 1);
    assert_eq!(r.line, " 2 files (1.00 KiB)");
    assert_eq!(r.details.unwrap(), "getting 3 blobs in total, 2.00 KiB");
}

#[test]
fn the_fetch_goes_on_until_it_is_over() {
    assert_eq!(get_step(GetEvent::Progress(5)), GetAction::Show(5));
    assert_eq!(get_step(GetEvent::Done), GetAction::Stop { with_stats: true });
    assert_eq!(get_step(GetEvent::Ended), GetAction::Stop { with_stats: false });
    assert_eq!(get_step(GetEvent::Error), GetAction::Fail);
}

#[test]
fn failures_of_a_fetch_are_shown() {
    for (f, marked, rest) in [
        (GetFailure::InitialNext, "initial connection error: why", ""),
        (GetFailure::ConnectedNext, "connected error: why", ""),
        (GetFailure::AtBlobHeaderNext, "reading blob header error: why", ""),
        (GetFailure::Decode, "decoding error: why", ""),
        (GetFailure::IrpcSend, "error sending over irpc: why", ""),
        (GetFailure::AtClosingNext, "error at closing: why", ""),
        (GetFailure::BadRequest, "bad request", ""),
        (GetFailure::LocalFailure, "local failure", " why"),
    ] {
        let r = show_get_error(f, "why");
        assert_eq!((r.marked.as_str(), r.rest.as_str()), (marked, rest));
    }
}

#[test]
fn an_archive_is_told_from_files() {
    let describe = |names: &[&str]| {
        let v: Vec<String> = names.iter().map(|s| s.to_string()).collect();
        let r = describe_received(&v);
        (r.root_name, r.archive)
    };
    assert_eq!(describe(&["myfolder.tar.gz"]), ("myfolder".to_string(), Some("myfolder.tar.gz".to_string())));
    assert_eq!(describe(&[".tar.gz"]), (String::new(), Some(".tar.gz".to_string())));
    assert_eq!(describe(&["a.tar.gz", "b"]), ("a.tar.gz".to_string(), None));
    assert_eq!(describe(&["data/x", "data/y"]), ("data".to_string(), None));
    assert_eq!(describe(&["somefile.bin"]), ("somefile.bin".to_string(), None));
    assert_eq!(describe(&[]), (String::new(), None));
    // a folder that was sent as it is stays as it is, though an archive is all that it holds
    assert_eq!(describe(&["data/x.tar.gz"]), ("data".to_string(), None));
    assert_eq!(describe(&["/x.tar.gz"]), (String::new(), None));
    assert_eq!(describe(&["a.tar.GZ"]).1, None);
}

#[test]
fn a_partial_download_is_kept_to_resume() {
    for (outcome, resume, remove, exit) in [
        (Outcome::Complete, false, true, None),
        (Outcome::Complete, true, true, None),
        (Outcome::Interrupted, false, true, Some(130)),
        (Outcome::Interrupted, true, false, Some(130)),
    ] {
        let e = ending(outcome, resume);
        assert_eq!((e.remove_cache, e.exit), (remove, exit));
        assert!(e.line.is_none());
    }
    let e = ending(Outcome::Failed("gone".to_string()), false);
    assert_eq!((e.remove_cache, e.exit, e.line.as_deref()), (true, Some(1), Some("error: gone")));
    assert!(!ending(Outcome::Failed("gone".to_string()), true).remove_cache);
}

#[test]
fn a_transfer_is_reported() {
    assert_eq!(received_line_of("1 B", "2s"), " (1 B) in 2s");
    assert_eq!(received_line(1000588, 3, 0), " (977.14 KiB) in 3s");
    assert_eq!(
        downloaded_line_of(2, "1 B", "2s", "3 B"),
        "downloaded 2 files, 1 B. took 2s (3 B/s)"
    );
    assert_eq!(
        downloaded_line(7, 2048, 60, 0, 1024),
        "downloaded 7 files, 2.00 KiB. took 60 seconds (1.00 KiB/s)"
    );
    assert_eq!(already_complete_line(&[0; 32]), format!("{} already complete", "00".repeat(32)));
}

#[test]
fn the_download_bar_moves_to_the_end() {
    let mut p = DownloadProgress::new(100, 1000);
    let s = p.advance(50, 0);
    assert_eq!((s.position, s.sample, s.remaining), (150, None, 850));
    let s = p.advance(300, SAMPLE_NANOS - 1);
    assert_eq!((s.position, s.sample, s.remaining), (400, None, 600));
    let s = p.advance(400, SAMPLE_NANOS);
    assert_eq!((s.position, s.sample, s.remaining), (500, Some(400), 500));
    let s = p.advance(300, SAMPLE_NANOS);
    assert_eq!((s.position, s.sample), (400, Some(0)));
    let s = p.advance(u64::MAX, SAMPLE_NANOS);
    assert_eq!((s.position, s.sample, s.remaining), (1000, Some(600), 0));
}

#[test]
fn the_time_left_is_shown() {
    assert_eq!(time_left_of("5 minutes"), "(5 minutes left)");
    assert_eq!(time_left(300, 0), "(5 minutes left)");
}

#[test]
fn nobody_one_or_several() {
    match choose_sender(&[]) {
        Choice::Nobody(e) => assert_eq!(
            e,
            "no senders found on the local network (is someone running `dshe send` on this network?)"
        ),
        other => panic!("{other:?}"),
    }
    match choose_sender(&[sender("myfolder", 1000588, &["10.0.1.172:5"])]) {
        Choice::Only(l) => assert_eq!(whole(&l), "found myfolder (977.14 KiB) from 10.0.1.172"),
        other => panic!("{other:?}"),
    }
    let two = [sender("myfolder", 1000588, &["10.0.1.172:5", "1.1.1.1:1"]), sender("b", 0, &[])];
    match choose_sender(&two) {
        Choice::Ask { lines, prompt } => {
            let lines: Vec<String> = lines.iter().map(whole).collect();
            assert_eq!(lines, vec!["  [1] myfolder (977.14 KiB) from 10.0.1.172", "  [2] b (0 B) from ?"]);
            assert_eq!(prompt, "pick a sender (1-2): ");
        }
        other => panic!("{other:?}"),
    }
    match choose_of(&two[..1], &["big".to_string()]) {
        Choice::Only(l) => assert_eq!(l.after, " (big) from 10.0.1.172"),
        other => panic!("{other:?}"),
    }
    assert_eq!(SCAN_SECS, 5);
}

#[test]
fn a_sender_is_picked_by_number() {
    assert_eq!(read_pick("1\n", 2), Ok(0));
    assert_eq!(read_pick(" +2 \r\n", 2), Ok(1));
    for line in ["", "0", "3", "-1", "x", "1 2", "99999999999999999999999"] {
        assert_eq!(read_pick(line, 2), Err("invalid pick".to_string()), "{line:?}");
    }
}

#[test]
fn a_question_comes_before_sending() {
    assert_eq!(confirm_prompt("a b", true).unwrap(), "send a b? [y/N] ");
    assert_eq!(confirm_prompt("a b", false).unwrap_err(), "path a b does not exist");
}

#[test]
fn a_line_means_yes_or_no() {
    for line in ["y", "Y\n", " yes ", "YES\r\n", "yEs"] {
        assert!(line_means_yes(line), "{line:?}");
    }
    for line in ["", "\n", "n", "ye", "yess", "y y", "ý"] {
        assert!(!line_means_yes(line), "{line:?}");
    }
}

#[test]
fn a_key_means_yes_or_no() {
    let r = key_reply(Some(b'Y'));
    assert_eq!((r.echo, r.answer), (Some('Y'), KeyAnswer::Yes));
    assert_eq!(key_reply(Some(b'y')).answer, KeyAnswer::Yes);
    let r = key_reply(Some(b'n'));
    assert_eq!((r.echo, r.answer), (Some('n'), KeyAnswer::No));
    let r = key_reply(Some(3));
    assert_eq!((r.echo, r.answer), (None, KeyAnswer::Interrupt(130)));
    for b in [b' ', b'\r', 0x7f, 0x80] {
        let r = key_reply(Some(b));
        assert_eq!((r.echo, r.answer), (None, KeyAnswer::No));
    }
    assert_eq!(key_reply(None).answer, KeyAnswer::No);
}

#[test]
fn only_c_does_something_while_sharing() {
    let event = |character, modifiers, kind| KeyEvent { character, modifiers, kind };
    let press = KeyEventKind::Press;
    assert_eq!(key_action(event(Some('c'), KeyModifiers::Plain, press)), KeyAction::Copy);
    assert_eq!(key_action(event(Some('c'), KeyModifiers::Control, press)), KeyAction::Interrupt);
    assert_eq!(key_action(event(Some('c'), KeyModifiers::Other, press)), KeyAction::Ignore);
    assert_eq!(key_action(event(Some('C'), KeyModifiers::Plain, press)), KeyAction::Ignore);
    assert_eq!(key_action(event(None, KeyModifiers::Control, press)), KeyAction::Ignore);
    assert_eq!(key_action(event(Some('c'), KeyModifiers::Plain, KeyEventKind::Release)), KeyAction::Ignore);
    assert_eq!(key_action(event(Some('c'), KeyModifiers::Control, KeyEventKind::Repeat)), KeyAction::Ignore);
}

#[test]
fn the_program_starts_with_a_command_or_a_path() {
    let args = Args { command: Some(Commands::Receive(receive_args(None, true))), path: Some(b"x".to_vec()) };
    assert!(matches!(args.launch(), Launch::Run(Commands::Receive(_))));
    match (Args { command: None, path: Some(b"x".to_vec()) }).launch() {
        Launch::Confirm(p) => assert_eq!(p, b"x".to_vec()),
        other => panic!("{other:?}"),
    }
    assert!(matches!((Args { command: None, path: None }).launch(), Launch::Help(2)));
    assert_eq!((exit_code(true), exit_code(false)), (0, 1));
}

#[test]
fn a_path_is_sent_after_a_yes() {
    match after_confirmation(b"a/b", true) {
        Confirmed::Send(s) => assert_eq!(s, "a/b"),
        other => panic!("{other:?}"),
    }
    match after_confirmation(b"\xff", true) {
        Confirmed::InvalidPath(e) => assert_eq!(e, "invalid path"),
        other => panic!("{other:?}"),
    }
    match after_confirmation(b"\xff", false) {
        Confirmed::Aborted { line, code } => assert_eq!((line.as_str(), code), ("aborted", 0)),
        other => panic!("{other:?}"),
    }
}
