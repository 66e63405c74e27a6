//! A sender that runs in the background: the foreground process waits for its ticket.
use vstd::prelude::*;
use crate::outside;
use crate::send;
use crate::text;
use crate::ticket;

verus! {

broadcast use vstd::seq::group_seq_axioms;

/// How long the foreground waits for the ticket, in seconds.
pub const TICKET_WAIT_SECS: u64 = 1800;

/// How long it waits between two looks, in milliseconds.
pub const TICKET_POLL_MS: u64 = 200;

/// The name of the file through which the ticket is handed over.
pub open spec fn ticket_file_name(suffix: Seq<u8>) -> Seq<char> {
    send::suffixed("dashe-ticket-"@, suffix, 8) + ".txt"@
}

/// The name of the file through which the ticket is handed over.
pub fn write_ticket_file_name(suffix: &[u8; 32]) -> (s: String)
    ensures
        s@ == ticket_file_name(suffix@),
{
    let mut s = send::write_suffixed("dashe-ticket-", suffix, 8);
    s.append(".txt");
    s
}

/// A name for that file with a suffix drawn at random.
pub fn fresh_ticket_file_name() -> (s: String)
    ensures
        exists|suffix: Seq<u8>| suffix.len() == 32 && s@ == #[trigger] ticket_file_name(suffix),
{
    let suffix = outside::generate_secret();
    let s = write_ticket_file_name(&suffix);
    assert(suffix@.len() == 32 && s@ == ticket_file_name(suffix@));
    s
}

/// What the foreground does next.
#[derive(Debug)]
pub enum Wait {
    /// It goes on with the ticket.
    Ready(String),
    /// It gives up, with a message.
    Failed(String),
    /// It looks again later.
    Again,
}

/// What a [`Wait`] holds.
pub enum WaitView {
    /// It goes on with the ticket.
    Ready(Seq<char>),
    /// It gives up, with a message.
    Failed(Seq<char>),
    /// It looks again later.
    Again,
}

impl View for Wait {
    type V = WaitView;

    open spec fn view(&self) -> WaitView {
        match self {
            Wait::Ready(s) => WaitView::Ready(s@),
            Wait::Failed(s) => WaitView::Failed(s@),
            Wait::Again => WaitView::Again,
        }
    }
}

/// What the foreground does after a look at the ticket file, the worker and the clock. A ticket
/// that is there counts, whatever became of the worker.
pub open spec fn waiting(content: Option<Seq<char>>, exited: bool, late: bool) -> WaitView {
    if content is Some && text::trim(content.unwrap()).len() > 0 {
        WaitView::Ready(text::trim(content.unwrap()))
    } else if exited {
        WaitView::Failed(
            "background sender exited before sharing (bad path or setup failure)"@,
        )
    } else if late {
        WaitView::Failed("timed out waiting for the background sender"@)
    } else {
        WaitView::Again
    }
}

/// The ticket in the file, where one was written.
pub fn ticket_in(content: Option<&str>) -> (r: Option<String>)
    ensures
        match content {
            Some(c) => {
                &&& r is Some <==> text::trim(c@).len() > 0
                &&& r matches Some(s) ==> s@ == text::trim(c@)
            },
            None => r is None,
        },
{
    match content {
        Some(c) => {
            let chars = text::chars_of(c);
            let trimmed = text::trim_chars(chars.as_slice());
            if trimmed.len() > 0 {
                Some(text::string_of(trimmed.as_slice()))
            } else {
                None
            }
        },
        None => None,
    }
}

/// What the foreground does after a look at the ticket file, the worker and the clock.
pub fn wait_step(content: Option<&str>, exited: bool, late: bool) -> (r: Wait)
    ensures
        r@ == waiting(
            match content {
                Some(c) => Some(c@),
                None => None,
            },
            exited,
            late,
        ),
{
    match ticket_in(content) {
        Some(t) => Wait::Ready(t),
        None => if exited {
            Wait::Failed(
                "background sender exited before sharing (bad path or setup failure)".to_string(),
            )
        } else if late {
            Wait::Failed("timed out waiting for the background sender".to_string())
        } else {
            Wait::Again
        },
    }
}

/// What the worker writes into the ticket file, the foreground reads out of it.
pub proof fn law_ticket_is_handed_over(t: Seq<char>, exited: bool, late: bool)
    requires
        text::is_trimmed(t),
    ensures
        waiting(Some(t), exited, late) == WaitView::Ready(t),
{
    text::lemma_trim_trimmed(t);
}

/// When the worker stops.
pub open spec fn mode_text(bg_stop: bool) -> Seq<char> {
    if bg_stop {
        "stops automatically after the first transfer"@
    } else {
        "stops when killed"@
    }
}

/// What the foreground prints once it has the ticket.
#[derive(Debug)]
pub struct BackgroundReport {
    /// The receive command.
    pub command: String,
    /// Where the worker runs and how it is stopped.
    pub note: String,
}

/// What the foreground prints once it has the ticket.
pub fn background_report(ticket: &str, pid: u32, bg_stop: bool) -> (r: BackgroundReport)
    ensures
        r.command@ == ticket::receive_command(ticket@),
        r.note@ == "running in background (pid "@ + text::decimal(pid as nat) + ", "@ + mode_text(
            bg_stop,
        ) + "; stop with: kill "@ + text::decimal(pid as nat) + "))"@,
{
    let number = text::decimal_string(pid as u64);
    let mut note = "running in background (pid ".to_string();
    note.append(number.as_str());
    note.append(", ");
    note.append(
        if bg_stop {
            "stops automatically after the first transfer"
        } else {
            "stops when killed"
        },
    );
    note.append("; stop with: kill ");
    note.append(number.as_str());
    note.append("))");
    BackgroundReport { command: ticket::write_receive_command(ticket), note }
}

/// A ticket counts where the file holds anything but white space, whatever became of the worker, and
/// it is what the file holds without the white space around it.
pub proof fn law_ticket_is_waited_for(
    before: Seq<char>,
    ticket: Seq<char>,
    after: Seq<char>,
    exited: bool,
    late: bool,
)
    requires
        forall|i: int| 0 <= i < before.len() ==> text::is_white_space(#[trigger] before[i]),
        forall|i: int| 0 <= i < after.len() ==> text::is_white_space(#[trigger] after[i]),
        text::is_trimmed(ticket),
    ensures
        waiting(Some(before + ticket + after), exited, late) == WaitView::Ready(ticket),
        waiting(Some(before + after), exited, late) == waiting(None, exited, late),
        waiting(None, exited, late) is Again <==> !exited && !late,
        waiting(None, exited, late) is Failed <==> exited || late,
        waiting(None, true, late) == waiting(None, true, !late),
        waiting(None, true, false) != waiting(None, false, true),
{
    text::law_trim(before, ticket, after);
    let none = Seq::<char>::empty();
    text::law_trim(before, none, after);
    assert(before + none + after =~= before + after);
    reveal_strlit("background sender exited before sharing (bad path or setup failure)");
    reveal_strlit("timed out waiting for the background sender");
    assert("background sender exited before sharing (bad path or setup failure)"@[0] == 'b');
    assert("timed out waiting for the background sender"@[0] == 't');
}

/// The file through which a ticket is handed over is named after its use, and suffixes that differ
/// early on give files of their own.
pub proof fn law_ticket_file_names(a: Seq<u8>, b: Seq<u8>)
    requires
        a.len() == 32,
        b.len() == 32,
    ensures
        "dashe-ticket-"@.is_prefix_of(ticket_file_name(a)),
        ".txt"@.is_suffix_of(ticket_file_name(a)),
        ticket_file_name(a).len() == "dashe-ticket-"@.len() + 16 + ".txt"@.len(),
        ticket_file_name(a) == ticket_file_name(b) <==> a.take(8) == b.take(8),
{
    let word = "dashe-ticket-"@;
    let end = ".txt"@;
    send::law_suffixed(word, a, b, 8);
    let x = ticket_file_name(a);
    let y = ticket_file_name(b);
    let front = send::suffixed(word, a, 8);
    let other = send::suffixed(word, b, 8);
    send::law_suffixed(word, b, a, 8);
    assert(word =~= front.subrange(0, word.len() as int));
    assert(word =~= x.subrange(0, word.len() as int));
    assert(end =~= x.subrange(x.len() - end.len(), x.len() as int));
    if x == y {
        assert(front =~= x.subrange(0, front.len() as int));
        assert(other =~= y.subrange(0, other.len() as int));
    }
}

/// The two ways in which a worker ends are told apart.
pub proof fn law_mode_text(bg_stop: bool)
    ensures
        bg_stop ==> mode_text(bg_stop) == "stops automatically after the first transfer"@,
        !bg_stop ==> mode_text(bg_stop) == "stops when killed"@,
{
}

/// What the foreground does is looked at with all that it says.
pub proof fn law_wait_view(w: Wait)
    ensures
        w matches Wait::Ready(s) ==> w@ == WaitView::Ready(s@),
        w matches Wait::Failed(s) ==> w@ == WaitView::Failed(s@),
        w is Again ==> w@ is Again,
{
}

}
