//! What a receiver decides and tells.
use vstd::prelude::*;
use crate::digits;
use crate::import;
use crate::import::WalkView;
use crate::outside;
use crate::paths;
use crate::send;
use crate::sizes;
use crate::text;

verus! {

broadcast use vstd::seq::group_seq_axioms;

/// The directory of the receiver's store, in the current directory.
pub open spec fn cache_dir_name(hash: Seq<u8>) -> Seq<char> {
    ".dashe-recv-"@ + digits::hex_lower(hash)
}

/// The directory of the receiver's store. It is named after what is received, so that a later
/// attempt finds it.
pub fn write_cache_dir_name(hash: &[u8; 32]) -> (s: String)
    ensures
        s@ == cache_dir_name(hash@),
{
    let mut s = ".dashe-recv-".to_string();
    s.append(outside::hash_to_hex(*hash).as_str());
    s
}

/// Different contents have different stores.
pub proof fn law_cache_dirs_differ(a: Seq<u8>, b: Seq<u8>)
    requires
        cache_dir_name(a) == cache_dir_name(b),
    ensures
        a == b,
{
    let word = ".dashe-recv-"@;
    assert(cache_dir_name(a).skip(word.len() as int) =~= digits::hex_lower(a));
    assert(cache_dir_name(b).skip(word.len() as int) =~= digits::hex_lower(b));
    digits::law_hex_lower_injective(a, b);
}

// ---------------------------------------------------------------------------------------
// What is fetched
// ---------------------------------------------------------------------------------------

/// What is fetched: the first blob lists the files, and each of the others is one.
#[derive(Debug)]
pub struct FetchSummary {
    /// The size of all blobs.
    pub total_size: u64,
    /// The size of the files.
    pub payload_size: u64,
    /// The number of files.
    pub total_files: u64,
}

/// The number of files among so many blobs.
pub open spec fn files_among(blobs: nat) -> nat {
    if blobs > 0 {
        (blobs - 1) as nat
    } else {
        0
    }
}

/// The sizes of the files.
pub open spec fn payload(all: Seq<u64>) -> Seq<u64> {
    if all.len() > 0 {
        all.skip(1)
    } else {
        all
    }
}

/// The files weigh no more than all blobs.
proof fn lemma_payload_is_smaller(all: Seq<u64>)
    ensures
        sizes::total(payload(all)) <= sizes::total(all),
    decreases all.len(),
{
    if all.len() > 1 {
        lemma_payload_is_smaller(all.drop_last());
        assert(all.skip(1).drop_last() =~= all.drop_last().skip(1));
    } else if all.len() == 1 {
        assert(payload(all) =~= Seq::<u64>::empty());
    }
}

/// What is fetched, given the sizes of the blobs; `None` where they weigh more than can be
/// counted.
pub fn fetch_summary(all: &[u64]) -> (r: Option<FetchSummary>)
    ensures
        r is Some <==> sizes::total(all@) <= u64::MAX,
        r matches Some(f) ==> {
            &&& f.total_size == sizes::total(all@)
            &&& f.payload_size == sizes::total(payload(all@))
            &&& f.total_files == files_among(all@.len())
        },
{
    let total_size = match sizes::checked_total(all) {
        Some(n) => n,
        None => {
            return None;
        },
    };
    let mut rest: Vec<u64> = Vec::new();
    if all.len() > 0 {
        for i in 1..all.len()
            invariant
                all.len() > 0,
                rest@ == all@.subrange(1, i as int),
        {
            rest.push(all[i]);
            assert(all@.subrange(1, i + 1) =~= all@.subrange(1, i as int).push(all@[i as int]));
        }
    }
    assert(rest@ =~= payload(all@));
    proof {
        lemma_payload_is_smaller(all@);
    }
    match sizes::checked_total(rest.as_slice()) {
        Some(payload_size) => Some(
            FetchSummary {
                total_size,
                payload_size,
                total_files: if all.len() > 0 {
                    all.len() as u64 - 1
                } else {
                    0
                },
            },
        ),
        None => None,
    }
}

/// The number of files of a collection that is there already, by its number of blobs.
pub fn complete_files(children: u64) -> (n: u64)
    requires
        children > 0,
    ensures
        n == files_among(children as nat),
{
    children - 1
}

/// What is told before the fetch.
#[derive(Debug)]
pub struct FetchReport {
    /// What follows the word `fetching`.
    pub line: String,
    /// The details, where they are wanted.
    pub details: Option<String>,
}

/// What follows the word `fetching`, where `size` is the size as it is shown.
pub open spec fn fetch_line(files: nat, size: Seq<char>) -> Seq<char> {
    " "@ + text::decimal(files) + " "@ + (if files == 1 {
        "file"@
    } else {
        "files"@
    }) + " ("@ + size + ")"@
}

/// The details of what is fetched, where `size` is the size as it is shown.
pub open spec fn fetch_details(blobs: nat, size: Seq<char>) -> Seq<char> {
    "getting "@ + text::decimal(blobs) + " blobs in total, "@ + size
}

/// What is told before the fetch, where `payload` and `total` are the sizes as they are shown.
pub fn fetch_report_of(files: u64, verbose: u8, payload: &str, total: &str) -> (r: FetchReport)
    requires
        files < u64::MAX,
    ensures
        r.line@ == fetch_line(files as nat, payload@),
        r.details is Some <==> verbose > 0,
        r.details matches Some(s) ==> s@ == fetch_details((files + 1) as nat, total@),
{
    let mut line = " ".to_string();
    line.append(text::decimal_string(files).as_str());
    line.append(" ");
    line.append(
        if files == 1 {
            "file"
        } else {
            "files"
        },
    );
    line.append(" (");
    line.append(payload);
    line.append(")");
    let details = if verbose > 0 {
        let mut s = "getting ".to_string();
        s.append(text::decimal_string(files + 1).as_str());
        s.append(" blobs in total, ");
        s.append(total);
        Some(s)
    } else {
        None
    };
    FetchReport { line, details }
}

/// What is told before the fetch.
pub fn fetch_report(summary: &FetchSummary, verbose: u8) -> (r: FetchReport)
    requires
        summary.total_files < u64::MAX,
    ensures
        r.line@ == fetch_line(
            summary.total_files as nat,
            outside::human_bytes_text(summary.payload_size),
        ),
        r.details is Some <==> verbose > 0,
        r.details matches Some(s) ==> s@ == fetch_details(
            (summary.total_files + 1) as nat,
            outside::human_bytes_text(summary.total_size),
        ),
{
    let payload = outside::human_bytes(summary.payload_size);
    let total = outside::human_bytes(summary.total_size);
    fetch_report_of(summary.total_files, verbose, payload.as_str(), total.as_str())
}

/// A step in the fetch.
#[derive(Debug, Clone, Copy, PartialEq, Eq, Structural)]
pub enum GetEvent {
    /// So many bytes came.
    Progress(u64),
    /// The fetch is complete.
    Done,
    /// The fetch failed.
    Error,
    /// Nothing more comes.
    Ended,
}

/// What is done after a step in the fetch.
#[derive(Debug, Clone, Copy, PartialEq, Eq, Structural)]
pub enum GetAction {
    /// The progress bar is told.
    Show(u64),
    /// The fetch is over; its statistics are those that came with the step, if any did.
    Stop { with_stats: bool },
    /// The fetch fails, and the error is shown.
    Fail,
}

/// What is done after a step in the fetch.
pub open spec fn get_action(e: GetEvent) -> GetAction {
    match e {
        GetEvent::Progress(n) => GetAction::Show(n),
        GetEvent::Done => GetAction::Stop { with_stats: true },
        GetEvent::Error => GetAction::Fail,
        GetEvent::Ended => GetAction::Stop { with_stats: false },
    }
}

/// What is done after a step in the fetch.
pub fn get_step(e: GetEvent) -> (r: GetAction)
    ensures
        r == get_action(e),
{
    match e {
        GetEvent::Progress(n) => GetAction::Show(n),
        GetEvent::Done => GetAction::Stop { with_stats: true },
        GetEvent::Error => GetAction::Fail,
        GetEvent::Ended => GetAction::Stop { with_stats: false },
    }
}

/// Which action ends a fetch that goes through the given steps: the first that is not for the
/// progress bar. There is none while more steps are to come.
pub open spec fn fetch_end(events: Seq<GetEvent>) -> Option<GetAction>
    decreases events.len(),
{
    if events.len() == 0 {
        None
    } else {
        match get_action(events[0]) {
            GetAction::Show(_) => fetch_end(events.skip(1)),
            end => Some(end),
        }
    }
}

/// A fetch in which an error comes before it is over fails, however far it had come.
pub proof fn law_error_fails_the_fetch(events: Seq<GetEvent>, at: int)
    requires
        0 <= at < events.len(),
        events[at] is Error,
        forall|i: int| 0 <= i < at ==> (#[trigger] events[i]) is Progress,
    ensures
        fetch_end(events) == Some(GetAction::Fail),
    decreases at,
{
    if at > 0 {
        assert(events[0] is Progress);
        let rest = events.skip(1);
        assert(forall|i: int| 0 <= i < rest.len() ==> rest[i] == events[i + 1]);
        law_error_fails_the_fetch(rest, at - 1);
    }
}

/// Where a fetch failed.
#[derive(Debug, Clone, Copy, PartialEq, Eq, Structural)]
pub enum GetFailure {
    /// At the start.
    InitialNext,
    /// Once connected.
    ConnectedNext,
    /// At the header of a blob.
    AtBlobHeaderNext,
    /// In the decoding.
    Decode,
    /// In the local channel.
    IrpcSend,
    /// At the end.
    AtClosingNext,
    /// The request was bad.
    BadRequest,
    /// On this side.
    LocalFailure,
}

/// What is shown of a failure: a part that is set off, and the rest.
#[derive(Debug)]
pub struct FailureReport {
    /// What is set off.
    pub marked: String,
    /// The rest.
    pub rest: String,
}

/// What is shown before the cause of a failure.
pub open spec fn failure_label(f: GetFailure) -> Seq<char> {
    match f {
        GetFailure::InitialNext => "initial connection error: "@,
        GetFailure::ConnectedNext => "connected error: "@,
        GetFailure::AtBlobHeaderNext => "reading blob header error: "@,
        GetFailure::Decode => "decoding error: "@,
        GetFailure::IrpcSend => "error sending over irpc: "@,
        GetFailure::AtClosingNext => "error at closing: "@,
        GetFailure::BadRequest => "bad request"@,
        GetFailure::LocalFailure => "local failure"@,
    }
}

/// What is shown of a failure with the given cause.
pub fn show_get_error(f: GetFailure, cause: &str) -> (r: FailureReport)
    ensures
        r.marked@ == failure_label(f) + match f {
            GetFailure::BadRequest => Seq::empty(),
            GetFailure::LocalFailure => Seq::empty(),
            _ => cause@,
        },
        r.rest@ == match f {
            GetFailure::LocalFailure => " "@ + cause@,
            _ => Seq::empty(),
        },
{
    let label = match f {
        GetFailure::InitialNext => "initial connection error: ",
        GetFailure::ConnectedNext => "connected error: ",
        GetFailure::AtBlobHeaderNext => "reading blob header error: ",
        GetFailure::Decode => "decoding error: ",
        GetFailure::IrpcSend => "error sending over irpc: ",
        GetFailure::AtClosingNext => "error at closing: ",
        GetFailure::BadRequest => "bad request",
        GetFailure::LocalFailure => "local failure",
    };
    let mut marked = label.to_string();
    let mut rest = String::new();
    match f {
        GetFailure::BadRequest => {},
        GetFailure::LocalFailure => {
            rest.append(" ");
            rest.append(cause);
        },
        _ => {
            marked.append(cause);
        },
    }
    assert(marked@ =~= failure_label(f) + match f {
        GetFailure::BadRequest => Seq::empty(),
        GetFailure::LocalFailure => Seq::empty(),
        _ => cause@,
    });
    assert(rest@ =~= match f {
        GetFailure::LocalFailure => " "@ + cause@,
        _ => Seq::empty(),
    });
    FailureReport { marked, rest }
}

// ---------------------------------------------------------------------------------------
// What was received
// ---------------------------------------------------------------------------------------

/// What a collection holds, as far as unpacking and reporting it go.
#[derive(Debug)]
pub struct Received {
    /// Under which name it is reported.
    pub root_name: String,
    /// The archive to unpack and remove, where a folder was packed into one.
    pub archive: Option<String>,
}

/// Whether a collection is a folder packed into an archive: its only file is one, and lies in no
/// folder itself.
pub open spec fn is_archive(names: Seq<Seq<char>>) -> bool {
    names.len() == 1 && !names[0].contains('/') && ".tar.gz"@.is_suffix_of(names[0])
}

/// The name under which a collection is reported: that of the folder in the archive, or the first
/// part of the first name.
pub open spec fn root_name(names: Seq<Seq<char>>) -> Seq<char> {
    if is_archive(names) {
        names[0].take(names[0].len() - ".tar.gz"@.len())
    } else if names.len() > 0 {
        text::split(names[0], '/')[0]
    } else {
        Seq::empty()
    }
}

/// What a collection with the given names holds. An archive that was shared as a single file makes
/// the same collection as the folder that it packs, so it is unpacked like that one. An archive in a
/// folder that was sent as it is stays packed.
pub fn describe_received(names: &[String]) -> (r: Received)
    ensures
        r.root_name@ == root_name(text::texts(names@)),
        r.archive is Some <==> is_archive(text::texts(names@)),
        r.archive matches Some(a) ==> a@ == names@[0]@,
        r.archive matches Some(a) ==> names@.len() == 1 && !a@.contains('/') && a@ == r.root_name@
            + ".tar.gz"@,
        r.archive is None && names@.len() > 0 ==> !r.root_name@.contains('/') && (names@[0]@
            == r.root_name@ || r.root_name@.push('/').is_prefix_of(names@[0]@)),
{
    let ghost all = text::texts(names@);
    proof {
        law_only_archives_are_unpacked(all);
        if !is_archive(all) {
            law_plain_root_name(all);
        }
    }
    if names.len() == 0 {
        return Received { root_name: String::new(), archive: None };
    }
    assert(all[0] == names@[0]@);
    let first = text::chars_of(names[0].as_str());
    let suffix = text::chars_of(".tar.gz");
    if names.len() == 1 && !text::has_char(first.as_slice(), '/') && text::has_suffix(
        first.as_slice(),
        suffix.as_slice(),
    ) {
        let folder = text::slice_chars(first.as_slice(), 0, first.len() - suffix.len());
        assert(folder@ =~= first@.take(first@.len() - suffix@.len()));
        Received {
            root_name: text::string_of(folder.as_slice()),
            archive: Some(names[0].as_str().to_string()),
        }
    } else {
        let parts = text::split_chars(first.as_slice(), '/');
        proof {
            text::lemma_split_nonempty(first@, '/');
            assert(text::views(parts@).len() == parts@.len());
            assert(text::views(parts@)[0] == parts@[0]@);
        }
        Received { root_name: text::string_of(parts[0].as_slice()), archive: None }
    }
}

/// The archive of a folder is recognised, and reported under the name of the folder, which is the
/// last component of the path that was sent.
pub proof fn law_archive_is_recognised(path: Seq<u8>)
    requires
        paths::last_name(path) is Some,
    ensures
        ({
            let folder = paths::last_name(path).unwrap();
            &&& is_archive(seq![send::archive_name(folder)])
            &&& root_name(seq![send::archive_name(folder)]) == folder
        }),
{
    let folder = paths::last_name(path).unwrap();
    let name = send::archive_name(folder);
    let suffix = ".tar.gz"@;
    reveal_strlit(".tar.gz");
    let all = paths::components(path);
    paths::lemma_component_names(path);
    assert(all[all.len() - 1] == all.last());
    paths::lemma_name_text(all.last()->Normal_0);
    assert(!name.contains('/')) by {
        if name.contains('/') {
            let i = choose|i: int| 0 <= i < name.len() && name[i] == '/';
            if i < folder.len() {
                assert(folder[i] == '/');
            }
        }
    }
    assert(suffix =~= name.subrange(name.len() - suffix.len(), name.len() as int));
    assert(name.take(name.len() - suffix.len()) =~= folder);
}

/// A folder that is sent as it is arrives as it is: nothing in it is unpacked, not even where an
/// archive is all that it holds. Every file that the walk comes across lies below the folder.
pub proof fn law_plain_folder_is_not_unpacked(
    given: Seq<u8>,
    path: Seq<u8>,
    entries: Seq<WalkView>,
)
    requires
        import::sources_of(given, path, entries) is Ok,
        forall|i: int|
            0 <= i < import::walked_files(entries).len() ==> paths::components(
                #[trigger] import::walked_files(entries)[i],
            ).len() > paths::components(path).len(),
    ensures
        !is_archive(
            import::sources_of(given, path, entries)->Ok_0.map_values(
                |s: import::SourceView| s.name,
            ),
        ),
{
    let base = paths::components(path);
    let first = import::shared_component(given, path).unwrap();
    let sources = import::sources_of(given, path, entries)->Ok_0;
    let names = sources.map_values(|s: import::SourceView| s.name);
    import::lemma_sources(base, first, entries);
    if names.len() == 1 {
        let found = sources.map_values(|s: import::SourceView| s.path);
        assert(found[0] == sources[0].path);
        assert(import::walked_files(entries)[0] == sources[0].path);
        let parts = seq![first] + paths::components(sources[0].path).skip(base.len() as int);
        paths::lemma_several_names(parts);
        assert(names[0] == sources[0].name);
    }
}

// ---------------------------------------------------------------------------------------
// The end
// ---------------------------------------------------------------------------------------

/// How a transfer ended.
#[derive(Debug)]
pub enum Outcome {
    /// It is complete.
    Complete,
    /// It failed, with a message.
    Failed(String),
    /// The user ended it.
    Interrupted,
}

/// What the receiver does at the end.
#[derive(Debug)]
pub struct Ending {
    /// Whether what was stored is removed.
    pub remove_cache: bool,
    /// What is told of a failure.
    pub line: Option<String>,
    /// The code with which the program ends at once, if it does.
    pub exit: Option<i32>,
}

/// What the receiver does at the end. What was stored of a transfer that is not complete is kept
/// only for a later attempt.
pub fn ending(outcome: Outcome, resume: bool) -> (r: Ending)
    ensures
        r.remove_cache == (outcome is Complete || !resume),
        r.exit == match outcome {
            Outcome::Complete => None,
            Outcome::Failed(_) => Some(1i32),
            Outcome::Interrupted => Some(130i32),
        },
        match outcome {
            Outcome::Failed(cause) => r.line matches Some(s) && s@ == "error: "@ + cause@,
            _ => r.line is None,
        },
{
    match outcome {
        Outcome::Complete => Ending { remove_cache: true, line: None, exit: None },
        Outcome::Failed(cause) => {
            let mut line = "error: ".to_string();
            line.append(cause.as_str());
            Ending { remove_cache: !resume, line: Some(line), exit: Some(1) }
        },
        Outcome::Interrupted => Ending { remove_cache: !resume, line: None, exit: Some(130) },
    }
}

/// What follows the name in the line that ends a transfer.
pub fn received_line_of(size: &str, time: &str) -> (s: String)
    ensures
        s@ == " ("@ + size@ + ") in "@ + time@,
{
    let mut s = " (".to_string();
    s.append(size);
    s.append(") in ");
    s.append(time);
    s
}

/// What follows the name in the line that ends a transfer. Of a time of more than `u32::MAX`
/// seconds only the text before it is fixed.
pub fn received_line(payload_size: u64, secs: u64, nanos: u32) -> (s: String)
    requires
        nanos < 1_000_000_000,
    ensures
        (" ("@ + outside::human_bytes_text(payload_size) + ") in "@).is_prefix_of(s@),
        secs <= u32::MAX ==> s@ == " ("@ + outside::human_bytes_text(payload_size) + ") in "@
            + outside::short_duration_text(secs, nanos),
{
    let size = outside::human_bytes(payload_size);
    let time = outside::short_duration(secs, nanos);
    let s = received_line_of(size.as_str(), time.as_str());
    proof {
        let front = " ("@ + size@ + ") in "@;
        assert(front =~= s@.subrange(0, front.len() as int));
    }
    s
}

/// The line with the details of a transfer; the sizes and the time are given as they are shown.
pub fn downloaded_line_of(files: u64, size: &str, time: &str, rate: &str) -> (s: String)
    ensures
        s@ == "downloaded "@ + text::decimal(files as nat) + " files, "@ + size@ + ". took "@ + time@
            + " ("@ + rate@ + "/s)"@,
{
    let mut s = "downloaded ".to_string();
    s.append(text::decimal_string(files).as_str());
    s.append(" files, ");
    s.append(size);
    s.append(". took ");
    s.append(time);
    s.append(" (");
    s.append(rate);
    s.append("/s)");
    s
}

/// The line with the details of a transfer, where `rate` is in bytes for each second. Of a time of
/// more than `u32::MAX` seconds only the text before it is fixed.
pub fn downloaded_line(
    files: u64,
    payload_size: u64,
    secs: u64,
    nanos: u32,
    rate: u64,
) -> (s: String)
    requires
        nanos < 1_000_000_000,
    ensures
        ("downloaded "@ + text::decimal(files as nat) + " files, "@ + outside::human_bytes_text(
            payload_size,
        ) + ". took "@).is_prefix_of(s@),
        secs <= u32::MAX ==> s@ == "downloaded "@ + text::decimal(files as nat) + " files, "@
            + outside::human_bytes_text(payload_size) + ". took "@ + outside::human_duration_text(
            secs,
            nanos,
        ) + " ("@ + outside::human_bytes_text(rate) + "/s)"@,
{
    let size = outside::human_bytes(payload_size);
    let time = outside::human_duration(secs, nanos);
    let speed = outside::human_bytes(rate);
    let s = downloaded_line_of(files, size.as_str(), time.as_str(), speed.as_str());
    proof {
        let front = "downloaded "@ + text::decimal(files as nat) + " files, "@ + size@
            + ". took "@;
        assert(front =~= s@.subrange(0, front.len() as int));
    }
    s
}

/// The line for a collection that is there already.
pub fn already_complete_line(hash: &[u8; 32]) -> (s: String)
    ensures
        s@ == digits::hex_lower(hash@) + " already complete"@,
{
    let mut s = outside::hash_to_string(*hash);
    s.append(" already complete");
    s
}

// ---------------------------------------------------------------------------------------
// What holds of what was received
// ---------------------------------------------------------------------------------------

/// Only a single file whose name ends in `.tar.gz`, in no folder, is unpacked, and it is reported
/// under what stands before the ending. Any other collection is left as it came.
pub proof fn law_only_archives_are_unpacked(names: Seq<Seq<char>>)
    ensures
        is_archive(names) ==> names.len() == 1 && !names[0].contains('/') && names[0] == root_name(
            names,
        ) + ".tar.gz"@,
        names.len() != 1 ==> !is_archive(names),
        names.len() > 0 && names[0].contains('/') ==> !is_archive(names),
        names.len() > 0 && (forall|stem: Seq<char>| names[0] != #[trigger] (stem + ".tar.gz"@))
            ==> !is_archive(names),
{
    if is_archive(names) {
        let name = names[0];
        let stem = name.take(name.len() - ".tar.gz"@.len());
        assert(".tar.gz"@ =~= name.subrange(name.len() - ".tar.gz"@.len(), name.len() as int));
        assert(name =~= stem + ".tar.gz"@);
    }
}

/// Every archive is unpacked: a single file that lies in no folder and ends in `.tar.gz`.
pub proof fn law_every_archive_is_unpacked(stem: Seq<char>)
    requires
        !stem.contains('/'),
    ensures
        is_archive(seq![stem + ".tar.gz"@]),
        root_name(seq![stem + ".tar.gz"@]) == stem,
{
    let name = stem + ".tar.gz"@;
    reveal_strlit(".tar.gz");
    assert(".tar.gz"@ =~= name.subrange(name.len() - 7, name.len() as int));
    assert(name.take(name.len() - 7) =~= stem);
    if name.contains('/') {
        let i = choose|i: int| 0 <= i < name.len() && name[i] == '/';
        if i < stem.len() {
            assert(stem[i] == '/');
        }
    }
}

/// What is not unpacked is reported under what stands before the first separator of its first name,
/// and that is the whole name where it holds none.
pub proof fn law_plain_root_name(names: Seq<Seq<char>>)
    requires
        !is_archive(names),
    ensures
        names.len() == 0 ==> root_name(names) == Seq::<char>::empty(),
        names.len() > 0 ==> !root_name(names).contains('/') && (names[0] == root_name(names)
            || root_name(names).push('/').is_prefix_of(names[0])),
{
    if names.len() > 0 {
        text::lemma_split_first(names[0], '/');
    }
}

/// The first blob lists the files and is none of them: its size counts for the whole alone.
pub proof fn law_fetched_sizes(list: u64, files: Seq<u64>)
    ensures
        sizes::total(seq![list] + files) == list + sizes::total(files),
        payload(seq![list] + files) == files,
        files_among((seq![list] + files).len()) == files.len(),
        files_among(0) == 0,
    decreases files.len(),
{
    let all = seq![list] + files;
    assert(payload(all) =~= files);
    if files.len() > 0 {
        law_fetched_sizes(list, files.drop_last());
        assert(all.drop_last() =~= seq![list] + files.drop_last());
    } else {
        assert(all.drop_last() =~= Seq::<u64>::empty());
        reveal_with_fuel(sizes::total, 2);
    }
}

/// The store of a receiver is named after the whole hash.
pub proof fn law_cache_dir_name(hash: Seq<u8>)
    ensures
        ".dashe-recv-"@.is_prefix_of(cache_dir_name(hash)),
        cache_dir_name(hash).skip(".dashe-recv-"@.len() as int) == digits::hex_lower(hash),
{
    let word = ".dashe-recv-"@;
    assert(word =~= cache_dir_name(hash).subrange(0, word.len() as int));
    assert(cache_dir_name(hash).skip(word.len() as int) =~= digits::hex_lower(hash));
}

/// One file is a file, and any other number are files; the number and the size are shown.
pub proof fn law_fetch_line(files: nat, size: Seq<char>)
    ensures
        files == 1 ==> fetch_line(files, size) == " 1 file ("@ + size + ")"@,
        files != 1 ==> fetch_line(files, size) == " "@ + text::decimal(files) + " files ("@ + size
            + ")"@,
{
    reveal_strlit(" ");
    reveal_strlit("file");
    reveal_strlit("files");
    reveal_strlit(" (");
    reveal_strlit(" files (");
    reveal_strlit(" 1 file (");
    if files == 1 {
        let one = text::decimal(1);
        reveal_with_fuel(text::number_text, 2);
        assert(one =~= seq!['1']);
        assert(fetch_line(files, size) =~= " 1 file ("@ + size + ")"@);
    } else {
        assert(fetch_line(files, size) =~= " "@ + text::decimal(files) + " files ("@ + size + ")"@);
    }
}

/// A fetch that is done stops with its statistics, and one of which nothing more comes without,
/// however much came before.
pub proof fn law_fetch_stops(events: Seq<GetEvent>, at: int)
    requires
        0 <= at < events.len(),
        events[at] is Done || events[at] is Ended,
        forall|i: int| 0 <= i < at ==> (#[trigger] events[i]) is Progress,
    ensures
        fetch_end(events) == Some(GetAction::Stop { with_stats: events[at] is Done }),
        forall|i: int|
            0 <= i < at ==> get_action(#[trigger] events[i]) == GetAction::Show(
                events[i]->Progress_0,
            ),
    decreases at,
{
    if at > 0 {
        assert(events[0] is Progress);
        let rest = events.skip(1);
        assert(forall|i: int| 0 <= i < rest.len() ==> rest[i] == events[i + 1]);
        law_fetch_stops(rest, at - 1);
    }
}

/// The details tell how many blobs there are and what they weigh together.
pub proof fn law_fetch_details(blobs: nat, size: Seq<char>)
    ensures
        fetch_details(blobs, size) == "getting "@ + text::decimal(blobs) + " blobs in total, "@
            + size,
{
}

}
