//! The command line arguments, and what they decide.
use vstd::prelude::*;
use crate::addr::SocketAddr;
use crate::options::{AddrInfoOptions, Format, RelayModeOption};
use crate::outside;

verus! {

/// Send a file or directory between two machines.
#[derive(Debug)]
pub struct Args {
    /// The command, where one is given.
    pub command: Option<Commands>,
    /// A file or folder to send after a confirmation.
    pub path: Option<Vec<u8>>,
}

/// What to do.
#[derive(Debug)]
pub enum Commands {
    /// Send a file or directory.
    Send(SendArgs),
    /// Receive a file or directory.
    Receive(ReceiveArgs),
}

/// The arguments of both commands.
#[derive(Debug)]
pub struct CommonArgs {
    /// The IPv4 address to listen on; a random port where there is none.
    pub magic_ipv4_addr: Option<SocketAddr>,
    /// The IPv6 address to listen on; a random port where there is none.
    pub magic_ipv6_addr: Option<SocketAddr>,
    /// How hashes are shown.
    pub format: Format,
    /// How much is told.
    pub verbose: u8,
    /// No progress bars.
    pub no_progress: bool,
    /// The relay servers to use.
    pub relay: RelayModeOption,
    /// Show the secret key.
    pub show_secret: bool,
    /// How many files are imported at a time.
    pub jobs: Option<usize>,
}

/// The arguments of the sender.
#[derive(Debug)]
pub struct SendArgs {
    /// The file or directory to send.
    pub path: Vec<u8>,
    /// What the ticket holds.
    pub ticket_type: AddrInfoOptions,
    /// The arguments of both commands.
    pub common: CommonArgs,
    /// Do not pack folders into an archive.
    pub noarchive: bool,
    /// Show the receive command as a QR code.
    pub qr: bool,
    /// Keep running after the first complete transfer.
    pub nostop: bool,
    /// Run in the background until the first complete transfer.
    pub bg_stop: bool,
    /// Run in the background until killed.
    pub bg: bool,
    /// Show the hash, the files and the speed of the import.
    pub debug: bool,
    /// Copy the receive command to the clipboard.
    pub clipboard: bool,
}

/// The arguments of the receiver.
#[derive(Debug)]
pub struct ReceiveArgs {
    /// The ticket, as text.
    pub ticket: Option<String>,
    /// Look for senders on the local network.
    pub scan: bool,
    /// Keep what was received when the transfer fails.
    pub resume: bool,
    /// Where to write the files; the current directory where there is none.
    pub dest: Option<Vec<u8>>,
    /// The arguments of both commands.
    pub common: CommonArgs,
}

/// How a sender runs.
#[derive(Debug, Clone, Copy, PartialEq, Eq, Structural)]
pub enum SendMode {
    /// It starts a worker in the background and ends.
    Spawn,
    /// It is such a worker: it lets go of its terminal.
    Worker,
    /// It shares in the foreground.
    Foreground,
}

/// What is copied to the clipboard, and when.
#[derive(Debug, Clone, Copy, PartialEq, Eq, Structural)]
pub struct ClipboardPlan {
    /// The receive command is copied at once.
    pub copy: bool,
    /// The sender listens for a key that copies it.
    pub listen: bool,
}

/// Something that a sender that shares waits for.
#[derive(Debug, Clone, Copy, PartialEq, Eq, Structural)]
pub enum ShareEvent {
    /// A transfer is complete.
    Complete,
    /// No more transfers are reported.
    Closed,
    /// The user ends it.
    Interrupted,
}

/// What a sender that shares does next.
#[derive(Debug, Clone, Copy, PartialEq, Eq, Structural)]
pub enum ShareStep {
    /// It goes on sharing.
    GoOn,
    /// It stops; `complete` says whether it does because a transfer is complete.
    Stop { complete: bool },
}

impl CommonArgs {
    /// Whether a secret key that was made up is shown.
    pub fn prints_secret(&self) -> (r: bool)
        ensures
            r == (self.verbose > 0),
    {
        self.verbose > 0
    }
}

impl SendArgs {
    /// How the sender runs; `worker` says whether it was started in the background.
    pub fn mode(&self, worker: bool) -> (r: SendMode)
        ensures
            r == if !self.bg && !self.bg_stop {
                SendMode::Foreground
            } else if worker {
                SendMode::Worker
            } else {
                SendMode::Spawn
            },
    {
        if !self.bg && !self.bg_stop {
            SendMode::Foreground
        } else if worker {
            SendMode::Worker
        } else {
            SendMode::Spawn
        }
    }

    /// Whether the sender ends by itself after the first complete transfer.
    pub fn stops_after_transfer(&self) -> (r: bool)
        ensures
            r == (!self.nostop && !self.bg),
    {
        !self.nostop && !self.bg
    }

    /// What the sender does after an event, while it shares.
    pub open spec fn step(&self, e: ShareEvent) -> ShareStep {
        match e {
            ShareEvent::Interrupted => ShareStep::Stop { complete: false },
            _ => if !self.nostop && !self.bg {
                ShareStep::Stop { complete: true }
            } else {
                ShareStep::GoOn
            },
        }
    }

    /// What the sender does after an event, while it shares. It ends after the first complete
    /// transfer, or goes on until the user ends it.
    pub fn share_step(&self, e: ShareEvent) -> (r: ShareStep)
        ensures
            r == self.step(e),
    {
        match e {
            ShareEvent::Interrupted => ShareStep::Stop { complete: false },
            _ => if self.stops_after_transfer() {
                ShareStep::Stop { complete: true }
            } else {
                ShareStep::GoOn
            },
        }
    }

    /// Whether the hash, the files and the speed of the import are shown.
    pub fn shows_details(&self) -> (r: bool)
        ensures
            r == (self.debug || self.common.verbose > 1),
    {
        self.debug || self.common.verbose > 1
    }

    /// Whether what is sent is packed into an archive.
    pub fn archives(&self, is_dir: bool) -> (r: bool)
        ensures
            r == (is_dir && !self.noarchive),
    {
        is_dir && !self.noarchive
    }

    /// What is copied to the clipboard. With a QR code on the screen there is no listening for
    /// keys, nor without a terminal.
    pub fn clipboard_plan(&self, terminal: bool) -> (r: ClipboardPlan)
        ensures
            r.copy == self.clipboard,
            r.listen == (!self.qr && terminal),
    {
        ClipboardPlan { copy: self.clipboard, listen: !self.qr && terminal }
    }
}

/// Where the receiver has its ticket from.
#[derive(Debug)]
pub enum TicketSource {
    /// From the command line.
    Given(String),
    /// From the beacons on the local network.
    Scan,
    /// It has none, with a message.
    Missing(String),
}

impl ReceiveArgs {
    /// Where the receiver has its ticket from.
    pub fn ticket_source(&self) -> (r: TicketSource)
        ensures
            match (self.ticket, self.scan) {
                (Some(t), _) => r matches TicketSource::Given(s) && s@ == t@,
                (None, true) => r is Scan,
                (None, false) => r matches TicketSource::Missing(s) && s@
                    == "provide a ticket, or use --scan to find senders on this network"@,
            },
    {
        match &self.ticket {
            Some(t) => TicketSource::Given(t.as_str().to_string()),
            None => if self.scan {
                TicketSource::Scan
            } else {
                TicketSource::Missing(
                    "provide a ticket, or use --scan to find senders on this network".to_string(),
                )
            },
        }
    }
}

// ---------------------------------------------------------------------------------------
// Starting
// ---------------------------------------------------------------------------------------

/// What the program starts with.
#[derive(Debug)]
pub enum Launch {
    /// The command.
    Run(Commands),
    /// A question whether to send the path.
    Confirm(Vec<u8>),
    /// The help text; then it ends with the given code.
    Help(i32),
}

impl Args {
    /// What the program starts with.
    pub fn launch(self) -> (r: Launch)
        ensures
            match (self.command, self.path) {
                (Some(c), _) => r == Launch::Run(c),
                (None, Some(p)) => r == Launch::Confirm(p),
                (None, None) => r == Launch::Help(2),
            },
    {
        match self.command {
            Some(c) => Launch::Run(c),
            None => match self.path {
                Some(p) => Launch::Confirm(p),
                None => Launch::Help(2),
            },
        }
    }
}

/// What follows the question whether to send a path.
#[derive(Debug)]
pub enum Confirmed {
    /// The path is sent.
    Send(String),
    /// Nothing is sent: a line is printed and the program ends with the given code.
    Aborted { line: String, code: i32 },
    /// The path is not text, with a message.
    InvalidPath(String),
}

/// What follows the answer to the question whether to send a path.
pub fn after_confirmation(path: &[u8], yes: bool) -> (r: Confirmed)
    ensures
        !yes ==> (r matches Confirmed::Aborted { line, code } && line@ == "aborted"@ && code == 0),
        yes && vstd::utf8::valid_utf8(path@) ==> (r matches Confirmed::Send(s) && s@
            == vstd::utf8::decode_utf8(path@)),
        yes && !vstd::utf8::valid_utf8(path@) ==> (r matches Confirmed::InvalidPath(s) && s@
            == "invalid path"@),
{
    if !yes {
        return Confirmed::Aborted { line: "aborted".to_string(), code: 0 };
    }
    match outside::utf8_string(path) {
        Some(s) => Confirmed::Send(s),
        None => Confirmed::InvalidPath("invalid path".to_string()),
    }
}

/// The code with which the program ends after a command.
pub fn exit_code(ok: bool) -> (r: i32)
    ensures
        r == if ok {
            0i32
        } else {
            1i32
        },
{
    if ok {
        0
    } else {
        1
    }
}

/// Only the flags decide: an interrupt always stops a sender, a complete transfer does unless it was
/// told to go on, and only that counts as complete.
pub proof fn law_share_step(args: SendArgs)
    ensures
        args.step(ShareEvent::Interrupted) == (ShareStep::Stop { complete: false }),
        args.nostop || args.bg ==> args.step(ShareEvent::Complete) is GoOn,
        !args.nostop && !args.bg ==> args.step(ShareEvent::Complete) == (ShareStep::Stop {
            complete: true,
        }),
        args.step(ShareEvent::Closed) == args.step(ShareEvent::Complete),
{
}

}
