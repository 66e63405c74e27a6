//! Writing the files of a collection below a directory.
use vstd::prelude::*;
use crate::import;
use crate::import::{CollectionEntry, EntryView};
use crate::paths;

verus! {

broadcast use vstd::seq::group_seq_axioms;

/// The export of a collection: its entries, and how many of them were dealt with.
#[derive(Debug)]
pub struct Exporter {
    root: Vec<u8>,
    entries: Vec<CollectionEntry>,
    next: usize,
}

/// What an [`Exporter`] holds.
#[verifier::ext_equal]
pub struct ExporterView {
    /// The directory to write below.
    pub root: Seq<u8>,
    /// The entries of the collection.
    pub entries: Seq<EntryView>,
    /// How many entries were dealt with.
    pub next: nat,
}

impl View for Exporter {
    type V = ExporterView;

    closed spec fn view(&self) -> ExporterView {
        ExporterView {
            root: self.root@,
            entries: import::entry_views(self.entries@),
            next: self.next as nat,
        }
    }
}

/// The next file to write.
#[derive(Debug)]
pub struct ExportTarget {
    /// Its place in the collection, which is also where the bar for all files stands.
    pub index: usize,
    /// Its name in the collection.
    pub name: String,
    /// The hash that the collection gives for the name.
    pub hash: [u8; 32],
    /// Where it is written.
    pub path: Vec<u8>,
    /// The message of its bar.
    pub message: String,
}

/// Why an export stops before a file, and what the user is told.
#[derive(Debug)]
pub struct ExportRefusal {
    /// What happened.
    pub note: String,
    /// What can be done about it.
    pub hint: String,
    /// The error.
    pub error: String,
}

impl Exporter {
    /// The export of a collection with the given entries below a directory.
    pub fn new(root: &[u8], entries: Vec<CollectionEntry>) -> (r: Exporter)
        ensures
            r@ == (ExporterView {
                root: root@,
                entries: import::entry_views(entries@),
                next: 0,
            }),
    {
        Exporter { root: paths::copy_bytes(root), entries, next: 0 }
    }

    /// The number of files, which is the length of the bar for all of them.
    pub fn len(&self) -> (n: usize)
        ensures
            n == self@.entries.len(),
    {
        self.entries.len()
    }

    /// The next file to write, by the hash of its content, and where it goes.
    pub fn next_target(&mut self) -> (r: Option<ExportTarget>)
        ensures
            old(self)@.next >= old(self)@.entries.len() ==> r is None && final(self)@ == old(
                self,
            )@,
            old(self)@.next < old(self)@.entries.len() ==> {
                let entry = old(self)@.entries[old(self)@.next as int];
                &&& r matches Some(t) && {
                    &&& t.index == old(self)@.next
                    &&& t.name@ == entry.name
                    &&& t.hash@ == entry.hash
                    &&& t.path@ == paths::export_path(old(self)@.root, entry.name)
                    &&& t.message@ == "exporting "@ + entry.name
                }
                &&& final(self)@ == (ExporterView { next: old(self)@.next + 1, ..old(self)@ })
            },
    {
        if self.next >= self.entries.len() {
            return None;
        }
        let index: usize = self.next;
        let name = self.entries[index].name.as_str().to_string();
        let hash = self.entries[index].hash;
        assert(self.entries@[index as int]@ == self@.entries[index as int]);
        let mut message = "exporting ".to_string();
        message.append(name.as_str());
        match paths::get_export_path(self.root.as_slice(), name.as_str()) {
            Ok(path) => {
                self.next = index + 1;
                Some(ExportTarget { index, name, hash, path, message })
            },
            Err(_) => None,
        }
    }
}

/// A step in the writing of one file.
#[derive(Debug)]
pub enum ExportEvent {
    /// The size of the file.
    Size(u64),
    /// The copy reached an offset.
    CopyProgress(u64),
    /// The file is written.
    Done,
    /// The export failed, with a message.
    Error(String),
}

/// What is to be done with the file's bar after a step.
#[derive(Debug)]
pub enum ExportAction {
    /// Set its length.
    Length(u64),
    /// Move it.
    Move(u64),
    /// Clear it.
    Clear,
    /// Clear it, and stop with an error.
    Fail(String),
}

/// What an [`ExportAction`] holds.
pub enum ExportActionView {
    /// Set its length.
    Length(u64),
    /// Move it.
    Move(u64),
    /// Clear it.
    Clear,
    /// Clear it, and stop with an error.
    Fail(Seq<char>),
}

impl View for ExportAction {
    type V = ExportActionView;

    open spec fn view(&self) -> ExportActionView {
        match self {
            ExportAction::Length(n) => ExportActionView::Length(*n),
            ExportAction::Move(n) => ExportActionView::Move(*n),
            ExportAction::Clear => ExportActionView::Clear,
            ExportAction::Fail(message) => ExportActionView::Fail(message@),
        }
    }
}

/// What is to be done after a step in the writing of the file of the given name.
pub open spec fn export_action(name: Seq<char>, e: ExportEvent) -> ExportActionView {
    match e {
        ExportEvent::Size(n) => ExportActionView::Length(n),
        ExportEvent::CopyProgress(n) => ExportActionView::Move(n),
        ExportEvent::Done => ExportActionView::Clear,
        ExportEvent::Error(cause) => ExportActionView::Fail(
            "error exporting "@ + name + ": "@ + cause@,
        ),
    }
}

impl ExportTarget {
    /// Whether the file may be written: nothing is written over what is there already. `target`
    /// is the path as it is shown.
    pub fn check(&self, exists: bool, target: &str) -> (r: Result<(), ExportRefusal>)
        ensures
            r is Ok <==> !exists,
            r matches Err(e) ==> {
                &&& e.note@ == "target "@ + target@ + " already exists. Export stopped."@
                &&& e.hint@
                    == "You can remove the file or directory and try again. The download will not be repeated."@
                &&& e.error@ == "target "@ + target@ + " already exists"@
            },
    {
        if !exists {
            return Ok(());
        }
        let mut note = "target ".to_string();
        note.append(target);
        note.append(" already exists. Export stopped.");
        let mut error = "target ".to_string();
        error.append(target);
        error.append(" already exists");
        Err(
            ExportRefusal {
                note,
                hint: "You can remove the file or directory and try again. The download will not be repeated.".to_string(),
                error,
            },
        )
    }

    /// What is to be done after a step in the writing of this file.
    pub fn handle(&self, event: ExportEvent) -> (r: ExportAction)
        ensures
            r@ == export_action(self.name@, event),
    {
        match event {
            ExportEvent::Size(n) => ExportAction::Length(n),
            ExportEvent::CopyProgress(n) => ExportAction::Move(n),
            ExportEvent::Done => ExportAction::Clear,
            ExportEvent::Error(cause) => {
                let mut message = "error exporting ".to_string();
                message.append(self.name.as_str());
                message.append(": ");
                message.append(cause.as_str());
                ExportAction::Fail(message)
            },
        }
    }
}

/// An error fails the export of a file and is told with its name; every other step leaves it going.
pub proof fn law_export_fails_on_errors(name: Seq<char>, cause: String, n: u64)
    ensures
        export_action(name, ExportEvent::Error(cause)) == ExportActionView::Fail(
            "error exporting "@ + name + ": "@ + cause@,
        ),
        export_action(name, ExportEvent::Size(n)) == ExportActionView::Length(n),
        export_action(name, ExportEvent::CopyProgress(n)) == ExportActionView::Move(n),
        export_action(name, ExportEvent::Done) is Clear,
{
}

/// What is to be done about a file is looked at with all that it says.
pub proof fn law_export_action_view(a: ExportAction)
    ensures
        a matches ExportAction::Length(n) ==> a@ == ExportActionView::Length(n),
        a matches ExportAction::Move(n) ==> a@ == ExportActionView::Move(n),
        a is Clear ==> a@ is Clear,
        a matches ExportAction::Fail(message) ==> a@ == ExportActionView::Fail(message@),
{
}

}
