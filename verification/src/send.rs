//! What a sender decides and tells.
use vstd::prelude::*;
use crate::args::SendArgs;
use crate::import::CollectionEntry;
use crate::options;
use crate::options::Format;
use crate::digits;
use crate::outside;
use crate::paths;
use crate::text;
use crate::ticket;

verus! {

broadcast use vstd::seq::group_seq_axioms;

// ---------------------------------------------------------------------------------------
// Names
// ---------------------------------------------------------------------------------------

/// A word followed by the first bytes of a suffix in hexadecimal.
pub open spec fn suffixed(word: Seq<char>, suffix: Seq<u8>, bytes: int) -> Seq<char> {
    word + digits::hex_lower(suffix.take(bytes))
}

/// A word followed by the first bytes of a suffix in hexadecimal.
pub fn write_suffixed(word: &str, suffix: &[u8; 32], bytes: usize) -> (s: String)
    requires
        bytes <= 32,
    ensures
        s@ == suffixed(word@, suffix@, bytes as int),
{
    let mut head: Vec<u8> = Vec::new();
    for i in 0..bytes
        invariant
            bytes <= 32,
            head@ == suffix@.take(i as int),
    {
        head.push(suffix[i]);
        assert(suffix@.take(i + 1) =~= suffix@.take(i as int).push(suffix@[i as int]));
    }
    let mut s = word.to_string();
    s.append(outside::hex_encode(head.as_slice()).as_str());
    s
}

/// The names of what a sender puts on disk, which no other sender uses.
#[derive(Debug)]
pub struct SendNames {
    /// What makes the names different from others.
    pub suffix: [u8; 32],
    /// The directory of the store, in the current directory.
    pub data_dir: String,
    /// The directory of the archive, among the temporary files.
    pub archive_dir: String,
}

impl SendNames {
    /// Whether the names are those of the suffix.
    pub open spec fn wf(self) -> bool {
        &&& self.data_dir@ == suffixed(".dashe-send-"@, self.suffix@, 16)
        &&& self.archive_dir@ == suffixed("dashe-"@, self.suffix@, 8)
    }

    /// The names with the given suffix.
    pub fn of(suffix: [u8; 32]) -> (r: SendNames)
        ensures
            r.suffix == suffix,
            r.wf(),
    {
        SendNames {
            suffix,
            data_dir: write_suffixed(".dashe-send-", &suffix, 16),
            archive_dir: write_suffixed("dashe-", &suffix, 8),
        }
    }

    /// Names with a suffix drawn at random.
    pub fn fresh() -> (r: SendNames)
        ensures
            r.wf(),
    {
        SendNames::of(outside::generate_secret())
    }
}

// ---------------------------------------------------------------------------------------
// Before anything is sent
// ---------------------------------------------------------------------------------------

/// What a sender finds on disk.
#[derive(Debug)]
pub struct SendSite {
    /// The current directory.
    pub cwd: Vec<u8>,
    /// The current directory, as it is shown.
    pub shown_cwd: String,
    /// Whether the directory of the store is there already.
    pub data_dir_exists: bool,
    /// Whether what is sent is a directory.
    pub is_dir: bool,
}

/// The archive that a folder is packed into.
#[derive(Debug)]
pub struct ArchivePlan {
    /// The directory of the archive, among the temporary files.
    pub dir: String,
    /// The name of the archive.
    pub file: String,
    /// The name of the folder inside the archive.
    pub folder: String,
}

/// What a sender is about to do.
#[derive(Debug)]
pub struct SendPlan {
    /// The name under which it announces what it shares.
    pub share_name: String,
    /// The archive, where what is shared is packed into one.
    pub archive: Option<ArchivePlan>,
}

/// Why a sender does not start.
#[derive(Debug)]
pub enum SendRefusal {
    /// A line is printed, and the program ends with the given code.
    Exit { line: String, code: i32 },
    /// It fails, with a message.
    Error(String),
}

/// The name of a folder's archive.
pub open spec fn archive_name(folder: Seq<char>) -> Seq<char> {
    folder + ".tar.gz"@
}

/// Whether the path is the current directory itself.
pub open spec fn is_current_dir(cwd: Seq<u8>, path: Seq<u8>) -> bool {
    paths::components(paths::joined(cwd, path)) == paths::components(cwd)
}

/// What a sender is about to do, or why it does not start.
pub fn plan_send(args: &SendArgs, names: &SendNames, site: &SendSite) -> (r: Result<
    SendPlan,
    SendRefusal,
>)
    ensures
        site.data_dir_exists ==> (r matches Err(SendRefusal::Exit { line, code }) && line@
            == "can not share twice from the same directory: "@ + site.shown_cwd@ && code == 1),
        !site.data_dir_exists && is_current_dir(site.cwd@, args.path@) ==> (r matches Err(
            SendRefusal::Exit { line, code },
        ) && line@ == "can not share from the current directory"@ && code == 1),
        !site.data_dir_exists && !is_current_dir(site.cwd@, args.path@) ==> match paths::last_name(
            args.path@,
        ) {
            None => r matches Err(SendRefusal::Error(e)) && e@ == "invalid path name"@,
            Some(name) => r matches Ok(p) && {
                &&& p.share_name@ == name
                &&& p.archive is Some <==> site.is_dir && !args.noarchive
                &&& p.archive matches Some(a) ==> {
                    &&& a.dir@ == names.archive_dir@
                    &&& a.file@ == archive_name(name)
                    &&& a.folder@ == name
                }
            },
        },
{
    if site.data_dir_exists {
        let mut line = "can not share twice from the same directory: ".to_string();
        line.append(site.shown_cwd.as_str());
        return Err(SendRefusal::Exit { line, code: 1 });
    }
    let whole = paths::join_path(site.cwd.as_slice(), args.path.as_slice());
    if paths::same_path(whole.as_slice(), site.cwd.as_slice()) {
        return Err(
            SendRefusal::Exit {
                line: "can not share from the current directory".to_string(),
                code: 1,
            },
        );
    }
    let share_name = match paths::read_last_name(args.path.as_slice()) {
        Some(name) => name,
        None => {
            return Err(SendRefusal::Error("invalid path name".to_string()));
        },
    };
    let archive = if args.archives(site.is_dir) {
        let mut file = share_name.as_str().to_string();
        file.append(".tar.gz");
        Some(
            ArchivePlan {
                dir: names.archive_dir.as_str().to_string(),
                file,
                folder: share_name.as_str().to_string(),
            },
        )
    } else {
        None
    };
    Ok(SendPlan { share_name, archive })
}

// ---------------------------------------------------------------------------------------
// What the sender tells
// ---------------------------------------------------------------------------------------

/// What the thing that was imported is called.
pub open spec fn entry_type(is_file: bool, archived: bool) -> Seq<char> {
    if is_file {
        "file"@
    } else if archived {
        "folder (compressed)"@
    } else {
        "directory"@
    }
}

/// The line after the import, in two parts: the path is shown between them.
#[derive(Debug)]
pub struct ImportReport {
    /// What comes before the path.
    pub before: String,
    /// What comes after it.
    pub after: String,
}

/// The line after the import, where `size` is the size as it is shown.
pub fn import_report_of(is_file: bool, archived: bool, size: &str) -> (r: ImportReport)
    ensures
        r.before@ == "imported "@ + entry_type(is_file, archived) + " "@,
        r.after@ == " ("@ + size@ + ")"@,
{
    let kind = if is_file {
        "file"
    } else if archived {
        "folder (compressed)"
    } else {
        "directory"
    };
    let mut before = "imported ".to_string();
    before.append(kind);
    before.append(" ");
    let mut after = " (".to_string();
    after.append(size);
    after.append(")");
    ImportReport { before, after }
}

/// The line for one file of a collection.
pub open spec fn file_line(name: Seq<char>, hash: Seq<u8>) -> Seq<char> {
    "    "@ + digits::hex_lower(hash) + " "@ + name
}

/// The lines for the files of a collection.
pub fn file_lines(files: &[CollectionEntry], format: Format) -> (r: Vec<String>)
    ensures
        r@.len() == files@.len(),
        forall|i: int|
            0 <= i < files@.len() ==> (#[trigger] r@[i])@ == file_line(
                files@[i].name@,
                files@[i].hash@,
            ),
{
    let mut r: Vec<String> = Vec::new();
    for i in 0..files.len()
        invariant
            r@.len() == i,
            forall|j: int|
                0 <= j < i ==> (#[trigger] r@[j])@ == file_line(files@[j].name@, files@[j].hash@),
    {
        let mut s = "    ".to_string();
        s.append(options::print_hash(&files[i].hash, format).as_str());
        s.append(" ");
        s.append(files[i].name.as_str());
        r.push(s);
    }
    r
}

/// The line that shows the receive command. Its first word and its other words are set off from
/// each other.
#[derive(Debug)]
pub struct CommandLine {
    /// What comes first.
    pub indent: String,
    /// The program.
    pub program: String,
    /// The rest of the command.
    pub rest: String,
}

/// What a [`CommandLine`] holds.
#[verifier::ext_equal]
pub struct CommandLineView {
    /// What comes first.
    pub indent: Seq<char>,
    /// The program.
    pub program: Seq<char>,
    /// The rest of the command.
    pub rest: Seq<char>,
}

impl View for CommandLine {
    type V = CommandLineView;

    open spec fn view(&self) -> CommandLineView {
        CommandLineView { indent: self.indent@, program: self.program@, rest: self.rest@ }
    }
}

impl CommandLineView {
    /// The line as it reads.
    pub open spec fn text(self) -> Seq<char> {
        self.indent + self.program + " "@ + self.rest
    }
}

/// The line that shows the receive command for a ticket.
pub open spec fn command_line_of(ticket: Seq<char>) -> CommandLineView {
    CommandLineView { indent: "  "@, program: "dshe"@, rest: "receive "@ + ticket }
}

/// The line that shows the receive command.
pub fn command_line(ticket: &str) -> (r: CommandLine)
    ensures
        r@ == command_line_of(ticket@),
        r@.text() == "  "@ + ticket::receive_command(ticket@),
{
    let mut rest = "receive ".to_string();
    rest.append(ticket);
    proof {
        lemma_command_line_text(ticket@);
    }
    CommandLine { indent: "  ".to_string(), program: "dshe".to_string(), rest }
}

/// The line reads as the receive command after two spaces.
proof fn lemma_command_line_text(ticket: Seq<char>)
    ensures
        command_line_of(ticket).text() == "  "@ + ticket::receive_command(ticket),
{
    reveal_strlit("dshe");
    reveal_strlit(" ");
    reveal_strlit("receive ");
    reveal_strlit("dshe receive ");
    assert("dshe"@ + " "@ + "receive "@ =~= "dshe receive "@);
    assert(command_line_of(ticket).text() =~= "  "@ + ("dshe"@ + " "@ + "receive "@ + ticket));
}

/// Who reads the line without the white space around it finds the receive command, and after the
/// command's name the ticket.
pub proof fn law_command_line_holds_ticket(ticket: Seq<char>)
    requires
        text::is_trimmed(ticket),
    ensures
        ({
            let line = text::trim(command_line_of(ticket).text());
            &&& line == ticket::receive_command(ticket)
            &&& text::after_prefix(line, "dshe receive "@) == Some(ticket)
            &&& text::trim(ticket) == ticket
        }),
{
    reveal_strlit("  ");
    reveal_strlit("dshe receive ");
    let command = ticket::receive_command(ticket);
    lemma_command_line_text(ticket);
    assert("  "@ + command =~= seq![' '] + (seq![' '] + command));
    text::lemma_trim_leading(' ', seq![' '] + command);
    text::lemma_trim_leading(' ', command);
    assert(command.last() == ticket.last());
    assert(command[0] == 'd');
    text::lemma_trim_trimmed(command);
    text::lemma_trim_trimmed(ticket);
    assert("dshe receive "@ =~= command.subrange(0, 13));
    assert(command.skip(13) =~= ticket);
}

/// A line that the sender prints once it shares.
#[derive(Debug)]
pub enum ShareLine {
    /// What was imported.
    Imported(ImportReport),
    /// The hash of the collection, after a label.
    Hash(String),
    /// A file of the collection.
    File(String),
    /// How fast the import was.
    Speed,
    /// An empty line.
    Blank,
    /// The receive command.
    Command(CommandLine),
}

/// What a [`ShareLine`] holds.
pub enum ShareLineView {
    /// What was imported: what comes before the path, and what comes after it.
    Imported(Seq<char>, Seq<char>),
    /// The hash of the collection, after a label.
    Hash(Seq<char>),
    /// A file of the collection.
    File(Seq<char>),
    /// How fast the import was.
    Speed,
    /// An empty line.
    Blank,
    /// The receive command.
    Command(CommandLineView),
}

impl View for ShareLine {
    type V = ShareLineView;

    open spec fn view(&self) -> ShareLineView {
        match self {
            ShareLine::Imported(r) => ShareLineView::Imported(r.before@, r.after@),
            ShareLine::Hash(s) => ShareLineView::Hash(s@),
            ShareLine::File(s) => ShareLineView::File(s@),
            ShareLine::Speed => ShareLineView::Speed,
            ShareLine::Blank => ShareLineView::Blank,
            ShareLine::Command(c) => ShareLineView::Command(c@),
        }
    }
}

/// The views of a sequence of lines.
pub open spec fn line_views(v: Seq<ShareLine>) -> Seq<ShareLineView> {
    v.map_values(|l: ShareLine| l@)
}

/// What was imported and is shared.
#[derive(Debug)]
pub struct Share {
    /// Whether it is a single file.
    pub is_file: bool,
    /// Whether it was packed into an archive.
    pub archived: bool,
    /// Its size in bytes.
    pub size: u64,
    /// The hash of the collection.
    pub hash: [u8; 32],
    /// The files of the collection.
    pub files: Vec<CollectionEntry>,
}

/// The lines for the files of a collection.
pub open spec fn file_line_views(files: Seq<CollectionEntry>) -> Seq<ShareLineView> {
    files.map_values(|f: CollectionEntry| ShareLineView::File(file_line(f.name@, f.hash@)))
}

/// The lines with the hash, the files and the speed.
pub open spec fn detail_lines(share: Share) -> Seq<ShareLineView> {
    seq![ShareLineView::Hash(digits::hex_lower(share.hash@))] + file_line_views(share.files@)
        + seq![ShareLineView::Speed]
}

/// The lines that the sender prints once it shares, where `size` is the size as it is shown.
pub open spec fn share_lines(
    details: bool,
    share: Share,
    size: Seq<char>,
    ticket: Seq<char>,
) -> Seq<ShareLineView> {
    seq![
        ShareLineView::Imported(
            "imported "@ + entry_type(share.is_file, share.archived) + " "@,
            " ("@ + size + ")"@,
        ),
    ] + (if details {
        detail_lines(share)
    } else {
        Seq::empty()
    }) + seq![
        ShareLineView::Blank,
        ShareLineView::Command(command_line_of(ticket)),
    ]
}

fn push_details(lines: &mut Vec<ShareLine>, share: &Share, format: Format)
    ensures
        line_views(final(lines)@) == line_views(old(lines)@) + detail_lines(*share),
{
    let ghost start = line_views(lines@);
    let ghost all = file_line_views(share.files@);
    lines.push(ShareLine::Hash(options::print_hash(&share.hash, format)));
    let ghost head = seq![ShareLineView::Hash(digits::hex_lower(share.hash@))];
    assert(line_views(lines@) =~= start + head + all.take(0));
    let texts = file_lines(share.files.as_slice(), format);
    for i in 0..texts.len()
        invariant
            texts@.len() == share.files@.len(),
            all == file_line_views(share.files@),
            forall|j: int|
                0 <= j < texts@.len() ==> (#[trigger] texts@[j])@ == file_line(
                    share.files@[j].name@,
                    share.files@[j].hash@,
                ),
            line_views(lines@) == start + head + all.take(i as int),
    {
        let ghost before = lines@;
        lines.push(ShareLine::File(texts[i].as_str().to_string()));
        assert(texts@[i as int]@ == file_line(
            share.files@[i as int].name@,
            share.files@[i as int].hash@,
        ));
        assert(line_views(lines@) =~= line_views(before).push(all[i as int]));
        assert(start + head + all.take(i + 1) =~= (start + head + all.take(i as int)).push(
            all[i as int],
        ));
    }
    let ghost before = lines@;
    lines.push(ShareLine::Speed);
    assert(line_views(lines@) =~= line_views(before).push(ShareLineView::Speed));
    assert(line_views(lines@) =~= start + detail_lines(*share));
}

/// The lines that the sender prints once it shares, where `size` is the size as it is shown.
pub fn share_report_of(args: &SendArgs, share: &Share, size: &str, ticket: &str) -> (r: Vec<
    ShareLine,
>)
    ensures
        line_views(r@) == share_lines(
            args.debug || args.common.verbose > 1,
            *share,
            size@,
            ticket@,
        ),
{
    let mut lines: Vec<ShareLine> = Vec::new();
    lines.push(ShareLine::Imported(import_report_of(share.is_file, share.archived, size)));
    let ghost first = line_views(lines@);
    if args.shows_details() {
        push_details(&mut lines, share, args.common.format);
    } else {
        assert(first + Seq::<ShareLineView>::empty() =~= first);
    }
    let ghost middle = line_views(lines@);
    lines.push(ShareLine::Blank);
    lines.push(ShareLine::Command(command_line(ticket)));
    assert(line_views(lines@) =~= middle + seq![
        ShareLineView::Blank,
        ShareLineView::Command(command_line_of(ticket@)),
    ]);
    assert(line_views(lines@) =~= share_lines(
        args.debug || args.common.verbose > 1,
        *share,
        size@,
        ticket@,
    ));
    lines
}

/// The lines that the sender prints once it shares: what it imported, the details where they are
/// wanted, and the receive command.
pub fn share_report(args: &SendArgs, share: &Share, ticket: &str) -> (r: Vec<ShareLine>)
    ensures
        line_views(r@) == share_lines(
            args.debug || args.common.verbose > 1,
            *share,
            outside::human_bytes_text(share.size),
            ticket@,
        ),
{
    let shown = outside::human_bytes(share.size);
    share_report_of(args, share, shown.as_str(), ticket)
}

// ---------------------------------------------------------------------------------------
// What holds of a send
// ---------------------------------------------------------------------------------------

/// A path from the root is refused as the current directory exactly where it has its components.
pub proof fn law_rooted_path_is_current_dir(cwd: Seq<u8>, path: Seq<u8>)
    requires
        path.len() > 0,
        path[0] == 47,
    ensures
        is_current_dir(cwd, path) <==> paths::components(path) == paths::components(cwd),
{
    paths::law_joined(cwd, path);
}

/// A relative path is refused as the current directory exactly where nothing but `.` stands between
/// its separators. So a path with a name or a `..` in it never is, whatever the directory is called.
pub proof fn law_relative_path_is_current_dir(cwd: Seq<u8>, path: Seq<u8>)
    requires
        cwd.len() > 0,
        cwd[0] == 47,
        !(path.len() > 0 && path[0] == 47),
    ensures
        is_current_dir(cwd, path) <==> forall|i: int|
            0 <= i < text::split(path, 47u8).len() ==> (#[trigger] text::split(path, 47u8)[i]).len()
                == 0 || text::split(path, 47u8)[i] == seq![46u8],
{
    let p = |c: paths::ComponentView| !(c is CurDir);
    let here = paths::written_components(cwd);
    let more = paths::written_components(path);
    paths::law_joined(cwd, path);
    assert(here.len() > 0);
    paths::lemma_without_dots_concat(here, more);
    paths::lemma_only_dots(text::split(path, 47u8));
    let rest = more.filter(p);
    let whole = paths::components(cwd) + rest;
    if rest.len() == 0 {
        assert(whole =~= paths::components(cwd));
    } else {
        assert(whole.len() > paths::components(cwd).len());
    }
}

/// Names are drawn from the suffix: they start with their word, and suffixes that differ early on
/// give different names.
pub proof fn law_suffixed(word: Seq<char>, a: Seq<u8>, b: Seq<u8>, len: int)
    requires
        0 <= len <= a.len(),
        len <= b.len(),
    ensures
        word.is_prefix_of(suffixed(word, a, len)),
        suffixed(word, a, len).len() == word.len() + 2 * len,
        suffixed(word, a, len) == suffixed(word, b, len) <==> a.take(len) == b.take(len),
{
    let x = suffixed(word, a, len);
    let y = suffixed(word, b, len);
    assert(word =~= x.subrange(0, word.len() as int));
    assert(x.skip(word.len() as int) =~= digits::hex_lower(a.take(len)));
    assert(y.skip(word.len() as int) =~= digits::hex_lower(b.take(len)));
    if x == y {
        digits::law_hex_lower_injective(a.take(len), b.take(len));
    }
}

/// Whatever is shared, the first line says what was imported and how large it is, and the last is
/// the receive command with the ticket, after an empty line.
pub proof fn law_share_lines(details: bool, share: Share, size: Seq<char>, ticket: Seq<char>)
    ensures
        ({
            let lines = share_lines(details, share, size, ticket);
            let n = lines.len() as int;
            &&& n >= 3
            &&& lines[0] matches ShareLineView::Imported(before, after) && after == " ("@ + size
                + ")"@ && (share.is_file ==> before == "imported file "@) && (!share.is_file
                && share.archived ==> before == "imported folder (compressed) "@) && (
            !share.is_file && !share.archived ==> before == "imported directory "@)
            &&& lines[n - 2] is Blank
            &&& lines[n - 1] matches ShareLineView::Command(c) && c.text()
                == "  dshe receive "@ + ticket
            &&& !details ==> n == 3
        }),
{
    let lines = share_lines(details, share, size, ticket);
    let n = lines.len() as int;
    lemma_command_line_text(ticket);
    reveal_strlit("  ");
    reveal_strlit("dshe receive ");
    reveal_strlit("  dshe receive ");
    assert("  "@ + ("dshe receive "@ + ticket) =~= "  dshe receive "@ + ticket);
    reveal_strlit("imported ");
    reveal_strlit(" ");
    reveal_strlit("file");
    reveal_strlit("folder (compressed)");
    reveal_strlit("directory");
    reveal_strlit("imported file ");
    reveal_strlit("imported folder (compressed) ");
    reveal_strlit("imported directory ");
    assert("imported "@ + "file"@ + " "@ =~= "imported file "@);
    assert("imported "@ + "folder (compressed)"@ + " "@ =~= "imported folder (compressed) "@);
    assert("imported "@ + "directory"@ + " "@ =~= "imported directory "@);
    assert(lines[n - 1] == ShareLineView::Command(command_line_of(ticket)));
}

/// With the details, the hash of the collection is shown, and each of its files on a line of its
/// own, with its hash and its name.
pub proof fn law_share_details(share: Share, size: Seq<char>, ticket: Seq<char>)
    ensures
        ({
            let lines = share_lines(true, share, size, ticket);
            let files = share.files@.len() as int;
            &&& lines.len() == files + 5
            &&& lines[1] == ShareLineView::Hash(digits::hex_lower(share.hash@))
            &&& forall|i: int|
                0 <= i < files ==> lines[#[trigger] (i + 2)] == ShareLineView::File(
                    "    "@ + digits::hex_lower(share.files@[i].hash@) + " "@
                        + share.files@[i].name@,
                )
            &&& lines[files + 2] is Speed
        }),
{
    let lines = share_lines(true, share, size, ticket);
    let files = share.files@.len() as int;
    assert forall|i: int| 0 <= i < files implies lines[#[trigger] (i + 2)] == ShareLineView::File(
        "    "@ + digits::hex_lower(share.files@[i].hash@) + " "@ + share.files@[i].name@,
    ) by {
        assert(lines[i + 2] == file_line_views(share.files@)[i]);
    }
}

/// The directories of a sender are named after their use, and senders whose suffixes differ early
/// on have directories of their own.
pub proof fn law_send_names(a: SendNames, b: SendNames)
    requires
        a.wf(),
        b.wf(),
    ensures
        ".dashe-send-"@.is_prefix_of(a.data_dir@),
        "dashe-"@.is_prefix_of(a.archive_dir@),
        a.data_dir@.len() == ".dashe-send-"@.len() + 32,
        a.archive_dir@.len() == "dashe-"@.len() + 16,
        a.data_dir@ == b.data_dir@ <==> a.suffix@.take(16) == b.suffix@.take(16),
        a.archive_dir@ == b.archive_dir@ <==> a.suffix@.take(8) == b.suffix@.take(8),
{
    law_suffixed(".dashe-send-"@, a.suffix@, b.suffix@, 16);
    law_suffixed("dashe-"@, a.suffix@, b.suffix@, 8);
}

/// The lines of a report are looked at one by one, each with all that it says.
pub proof fn law_line_views(v: Seq<ShareLine>, i: int)
    ensures
        line_views(v).len() == v.len(),
        0 <= i < v.len() ==> {
            let l = line_views(v)[i];
            &&& v[i] matches ShareLine::Imported(r) ==> l == ShareLineView::Imported(
                r.before@,
                r.after@,
            )
            &&& v[i] matches ShareLine::Hash(s) ==> l == ShareLineView::Hash(s@)
            &&& v[i] matches ShareLine::File(s) ==> l == ShareLineView::File(s@)
            &&& v[i] is Speed ==> l is Speed
            &&& v[i] is Blank ==> l is Blank
            &&& v[i] matches ShareLine::Command(c) ==> (l matches ShareLineView::Command(w)
                && w.indent == c.indent@ && w.program == c.program@ && w.rest == c.rest@)
        },
{
}

}
