//! Importing a file or folder: the names of the files, the progress of each, and the collection
//! that they make.
use vstd::prelude::*;
use crate::paths;
use crate::paths::{ComponentView, PathComponent, PathError, PathErrorView};
use crate::sizes;
use crate::text;

verus! {

broadcast use vstd::seq::group_seq_axioms;

/// How many files are imported at a time: as the user says, or one for each core.
pub fn parallelism(jobs: Option<usize>, cores: Option<usize>) -> (n: usize)
    ensures
        n == match jobs {
            Some(j) => j,
            None => match cores {
                Some(c) => c,
                None => 1,
            },
        },
{
    match jobs {
        Some(j) => j,
        None => match cores {
            Some(c) => c,
            None => 1,
        },
    }
}

// ---------------------------------------------------------------------------------------
// The files to import
// ---------------------------------------------------------------------------------------

/// Something that walking a directory tree came across.
#[derive(Debug)]
pub enum WalkEntry {
    /// A file.
    File(Vec<u8>),
    /// A directory or a symbolic link.
    Other,
    /// An error, with its message.
    Failed(String),
}

/// What a [`WalkEntry`] holds.
pub enum WalkView {
    /// A file.
    File(Seq<u8>),
    /// A directory or a symbolic link.
    Other,
    /// An error, with its message.
    Failed(Seq<char>),
}

impl View for WalkEntry {
    type V = WalkView;

    open spec fn view(&self) -> WalkView {
        match self {
            WalkEntry::File(path) => WalkView::File(path@),
            WalkEntry::Other => WalkView::Other,
            WalkEntry::Failed(cause) => WalkView::Failed(cause@),
        }
    }
}

/// The views of a sequence of entries.
pub open spec fn walk_views(v: Seq<WalkEntry>) -> Seq<WalkView> {
    v.map_values(|e: WalkEntry| e@)
}

/// A file to import, with its name in the collection.
#[derive(Debug)]
pub struct Source {
    /// The name in the collection.
    pub name: String,
    /// Where the file is.
    pub path: Vec<u8>,
}

/// What a [`Source`] holds.
#[verifier::ext_equal]
pub struct SourceView {
    /// The name in the collection.
    pub name: Seq<char>,
    /// Where the file is.
    pub path: Seq<u8>,
}

impl View for Source {
    type V = SourceView;

    open spec fn view(&self) -> SourceView {
        SourceView { name: self.name@, path: self.path@ }
    }
}

/// The views of a sequence of sources.
pub open spec fn source_views(v: Seq<Source>) -> Seq<SourceView> {
    v.map_values(|s: Source| s@)
}

/// Why nothing can be imported.
#[derive(Debug)]
pub enum ImportError {
    /// The path is the root: there is nothing above it to name the files from.
    NoParent,
    /// The walk failed, with a message.
    Walk(String),
    /// A file does not lie below the directory.
    Prefix,
    /// A file has no name in the collection.
    Name(PathError),
}

/// What an [`ImportError`] holds.
pub enum ImportErrorView {
    /// The path is the root: there is nothing above it to name the files from.
    NoParent,
    /// The walk failed, with a message.
    Walk(Seq<char>),
    /// A file does not lie below the directory.
    Prefix,
    /// A file has no name in the collection.
    Name(PathErrorView),
}

impl View for ImportError {
    type V = ImportErrorView;

    open spec fn view(&self) -> ImportErrorView {
        match self {
            ImportError::NoParent => ImportErrorView::NoParent,
            ImportError::Walk(cause) => ImportErrorView::Walk(cause@),
            ImportError::Prefix => ImportErrorView::Prefix,
            ImportError::Name(e) => ImportErrorView::Name(e@),
        }
    }
}

/// The message of an error.
pub open spec fn import_error_text(e: ImportErrorView) -> Seq<char> {
    match e {
        ImportErrorView::NoParent => "context get parent"@,
        ImportErrorView::Walk(cause) => cause,
        ImportErrorView::Prefix => "prefix not found"@,
        ImportErrorView::Name(e) => paths::path_error_text(e),
    }
}

impl ImportError {
    /// The message of the error.
    pub fn message(&self) -> (s: String)
        ensures
            s@ == import_error_text(self@),
    {
        match self {
            ImportError::NoParent => "context get parent".to_string(),
            ImportError::Walk(cause) => cause.as_str().to_string(),
            ImportError::Prefix => "prefix not found".to_string(),
            ImportError::Name(e) => e.message(),
        }
    }
}

/// The component under which a path is shared: the last one of the path that was given, or, where
/// that is no name, the last one of the path that it stands for. There is none for the root.
pub open spec fn shared_component(given: Seq<u8>, path: Seq<u8>) -> Option<ComponentView> {
    let all = paths::components(path);
    let own = paths::components(given);
    if all.len() == 0 || all.last() is RootDir {
        None
    } else if own.len() > 0 && own.last() is Normal {
        Some(own.last())
    } else {
        Some(all.last())
    }
}

/// The name of a file at or below the path with the components `base`, which is shared under the
/// component `first`.
pub open spec fn file_name(
    base: Seq<ComponentView>,
    first: ComponentView,
    file: Seq<u8>,
) -> Result<Seq<char>, ImportErrorView> {
    match paths::after_components(base, paths::components(file)) {
        None => Err(ImportErrorView::Prefix),
        Some(rest) => match paths::canonical(seq![first] + rest, true) {
            Ok(name) => Ok(name),
            Err(e) => Err(ImportErrorView::Name(e)),
        },
    }
}

/// The files among the entries, each with its name. The first entry at fault decides the error.
pub open spec fn sources_below(
    base: Seq<ComponentView>,
    first: ComponentView,
    entries: Seq<WalkView>,
) -> Result<Seq<SourceView>, ImportErrorView>
    decreases entries.len(),
{
    if entries.len() == 0 {
        Ok(Seq::empty())
    } else {
        match sources_below(base, first, entries.drop_last()) {
            Err(e) => Err(e),
            Ok(front) => match entries.last() {
                WalkView::Failed(cause) => Err(ImportErrorView::Walk(cause)),
                WalkView::Other => Ok(front),
                WalkView::File(path) => match file_name(base, first, path) {
                    Ok(name) => Ok(front.push(SourceView { name, path })),
                    Err(e) => Err(e),
                },
            },
        }
    }
}

/// The files to import for the path that was given, the canonical path that it stands for, and what
/// walking that came across.
pub open spec fn sources_of(given: Seq<u8>, path: Seq<u8>, entries: Seq<WalkView>) -> Result<
    Seq<SourceView>,
    ImportErrorView,
> {
    match shared_component(given, path) {
        None => Err(ImportErrorView::NoParent),
        Some(first) => sources_below(paths::components(path), first, entries),
    }
}

/// A result of sources or an error, by their views.
pub open spec fn sources_result(r: Result<Vec<Source>, ImportError>) -> Result<
    Seq<SourceView>,
    ImportErrorView,
> {
    match r {
        Ok(v) => Ok(source_views(v@)),
        Err(e) => Err(e@),
    }
}

/// An entry's error stays where more entries follow.
proof fn lemma_source_error_stays(
    base: Seq<ComponentView>,
    first: ComponentView,
    entries: Seq<WalkView>,
    i: int,
)
    requires
        0 <= i <= entries.len(),
        sources_below(base, first, entries.take(i)) is Err,
    ensures
        sources_below(base, first, entries) == sources_below(base, first, entries.take(i)),
    decreases entries.len() - i,
{
    if i < entries.len() {
        assert(entries.take(i + 1).drop_last() =~= entries.take(i));
        lemma_source_error_stays(base, first, entries, i + 1);
    } else {
        assert(entries.take(i) =~= entries);
    }
}

fn name_below(base: &[PathComponent], first: &PathComponent, file: &[u8]) -> (r: Result<
    String,
    ImportError,
>)
    ensures
        match r {
            Ok(name) => file_name(paths::component_views(base@), first@, file@) == Ok::<
                Seq<char>,
                ImportErrorView,
            >(name@),
            Err(e) => file_name(paths::component_views(base@), first@, file@) == Err::<
                Seq<char>,
                ImportErrorView,
            >(e@),
        },
{
    let all = paths::read_components(file);
    match paths::strip_components(base, all.as_slice()) {
        None => Err(ImportError::Prefix),
        Some(mut rest) => {
            let ghost left = paths::component_views(rest@);
            let mut parts: Vec<PathComponent> = Vec::new();
            parts.push(paths::copy_component(first));
            parts.append(&mut rest);
            assert(paths::component_views(parts@) =~= seq![first@] + left);
            match paths::components_to_string(parts.as_slice(), true) {
                Ok(name) => Ok(name),
                Err(e) => Err(ImportError::Name(e)),
            }
        },
    }
}

fn read_shared_component(given: &[u8], path: &[PathComponent]) -> (r: Option<PathComponent>)
    ensures
        forall|p: Seq<u8>|
            #[trigger] paths::components(p) == paths::component_views(path@) ==> match r {
                Some(c) => shared_component(given@, p) == Some(c@),
                None => shared_component(given@, p) is None,
            },
{
    let ghost all = paths::component_views(path@);
    if path.len() == 0 {
        assert(all.len() == 0);
        return None;
    }
    assert(all.last() == path@.last()@);
    let last = &path[path.len() - 1];
    match last {
        PathComponent::RootDir => {
            return None;
        },
        _ => {},
    }
    let own = paths::read_components(given);
    assert(own@.len() == paths::component_views(own@).len());
    if own.len() > 0 {
        assert(paths::component_views(own@).last() == own@.last()@);
        match &own[own.len() - 1] {
            PathComponent::Normal(name) => {
                return Some(paths::copy_component(&own[own.len() - 1]));
            },
            _ => {},
        }
    }
    Some(paths::copy_component(last))
}

/// The files to import: each file that the walk of `path` came across, named from the last
/// component of the path that was given. `path` is the canonical path that the given one stands for, which
/// ends otherwise where the given one ends in a symbolic link. Links below it are left out.
pub fn plan_import(given: &[u8], path: &[u8], entries: &[WalkEntry]) -> (r: Result<
    Vec<Source>,
    ImportError,
>)
    ensures
        sources_result(r) == sources_of(given@, path@, walk_views(entries@)),
{
    let ghost all = walk_views(entries@);
    let base = paths::read_components(path);
    let first = match read_shared_component(given, base.as_slice()) {
        Some(c) => c,
        None => {
            return Err(ImportError::NoParent);
        },
    };
    let ghost above = paths::component_views(base@);
    let mut sources: Vec<Source> = Vec::new();
    assert(source_views(sources@) =~= Seq::<SourceView>::empty());
    for i in 0..entries.len()
        invariant
            all == walk_views(entries@),
            above == paths::component_views(base@),
            above == paths::components(path@),
            shared_component(given@, path@) == Some(first@),
            sources_below(above, first@, all.take(i as int)) == Ok::<
                Seq<SourceView>,
                ImportErrorView,
            >(source_views(sources@)),
    {
        let ghost before = sources@;
        assert(all.take(i + 1).drop_last() =~= all.take(i as int));
        assert(all.take(i + 1).last() == entries@[i as int]@);
        match &entries[i] {
            WalkEntry::Failed(cause) => {
                proof {
                    lemma_source_error_stays(above, first@, all, i + 1);
                }
                return Err(ImportError::Walk(cause.as_str().to_string()));
            },
            WalkEntry::Other => {},
            WalkEntry::File(file) => {
                match name_below(base.as_slice(), &first, file.as_slice()) {
                    Ok(name) => {
                        let s = Source { name, path: paths::copy_bytes(file.as_slice()) };
                        let ghost v = s@;
                        sources.push(s);
                        assert(source_views(sources@) =~= source_views(before).push(v));
                    },
                    Err(e) => {
                        proof {
                            lemma_source_error_stays(above, first@, all, i + 1);
                        }
                        return Err(e);
                    },
                }
            },
        }
    }
    assert(all.take(all.len() as int) =~= all);
    Ok(sources)
}

/// The shared component, where it is a name, is not empty and holds no separator.
proof fn lemma_shared_name(given: Seq<u8>, path: Seq<u8>)
    requires
        shared_component(given, path) is Some,
    ensures
        shared_component(given, path).unwrap() matches ComponentView::Normal(n) ==> paths::is_name(
            n,
        ),
{
    let all = paths::components(path);
    let own = paths::components(given);
    paths::lemma_component_names(given);
    paths::lemma_component_names(path);
    assert(all[all.len() - 1] == all.last());
    if own.len() > 0 {
        assert(own[own.len() - 1] == own.last());
    }
}

/// A file that is shared lands below the destination at the place that it has below what is shared:
/// the export path has the components of the destination, then the one under which the path is
/// shared, then those of the file below the path.
pub proof fn law_shared_file_lands_below_destination(
    given: Seq<u8>,
    path: Seq<u8>,
    file: Seq<u8>,
    destination: Seq<u8>,
)
    requires
        shared_component(given, path) is Some,
        file_name(
            paths::components(path),
            shared_component(given, path).unwrap(),
            file,
        ) is Ok,
    ensures
        ({
            let base = paths::components(path);
            let first = shared_component(given, path).unwrap();
            let name = file_name(base, first, file)->Ok_0;
            paths::components(paths::export_path(destination, name)) == paths::components(
                destination,
            ) + (seq![first] + paths::components(file).skip(base.len() as int))
        }),
{
    let base = paths::components(path);
    let first = shared_component(given, path).unwrap();
    let all = paths::components(file);
    let parts = seq![first] + all.skip(base.len() as int);
    lemma_shared_name(given, path);
    paths::lemma_component_names(file);
    assert forall|i: int| 0 <= i < parts.len() implies (
        #[trigger] parts[i] matches ComponentView::Normal(n) ==> paths::is_name(n)
    ) by {
        if i > 0 {
            assert(parts[i] == all[i - 1 + base.len()]);
        }
    }
    paths::lemma_export_components(destination, parts);
}

/// Different files have different names.
pub proof fn law_different_files_have_different_names(
    given: Seq<u8>,
    path: Seq<u8>,
    a: Seq<u8>,
    b: Seq<u8>,
)
    requires
        shared_component(given, path) is Some,
        file_name(paths::components(path), shared_component(given, path).unwrap(), a) is Ok,
        file_name(paths::components(path), shared_component(given, path).unwrap(), a)
            == file_name(paths::components(path), shared_component(given, path).unwrap(), b),
    ensures
        paths::components(a) == paths::components(b),
{
    let base = paths::components(path);
    let first = shared_component(given, path).unwrap();
    let root = Seq::<u8>::empty();
    let x = paths::components(a);
    let y = paths::components(b);
    law_shared_file_lands_below_destination(given, path, a, root);
    law_shared_file_lands_below_destination(given, path, b, root);
    let top = paths::components(root);
    let n = base.len() as int;
    let p = top + (seq![first] + x.skip(n));
    let q = top + (seq![first] + y.skip(n));
    assert(p == q);
    assert(p.skip(top.len() as int + 1) =~= x.skip(n));
    assert(q.skip(top.len() as int + 1) =~= y.skip(n));
    assert(base =~= x.subrange(0, n));
    assert(base =~= y.subrange(0, n));
    assert(x =~= base + x.skip(n));
    assert(y =~= base + y.skip(n));
}

/// The files among the entries, in order.
pub open spec fn walked_files(entries: Seq<WalkView>) -> Seq<Seq<u8>>
    decreases entries.len(),
{
    if entries.len() == 0 {
        Seq::empty()
    } else {
        match entries.last() {
            WalkView::File(path) => walked_files(entries.drop_last()).push(path),
            _ => walked_files(entries.drop_last()),
        }
    }
}

/// Every file that the walk came across is imported, once and in order, and nothing else is.
pub proof fn law_every_file_is_imported(given: Seq<u8>, path: Seq<u8>, entries: Seq<WalkView>)
    requires
        sources_of(given, path, entries) is Ok,
    ensures
        sources_of(given, path, entries)->Ok_0.map_values(|s: SourceView| s.path) == walked_files(
            entries,
        ),
{
    lemma_sources(paths::components(path), shared_component(given, path).unwrap(), entries);
}

/// Each source is a file of the walk with its own name.
pub proof fn lemma_sources(base: Seq<ComponentView>, first: ComponentView, entries: Seq<WalkView>)
    requires
        sources_below(base, first, entries) is Ok,
    ensures
        sources_below(base, first, entries)->Ok_0.map_values(|s: SourceView| s.path)
            == walked_files(entries),
        forall|i: int|
            0 <= i < sources_below(base, first, entries)->Ok_0.len() ==> file_name(
                base,
                first,
                (#[trigger] sources_below(base, first, entries)->Ok_0[i]).path,
            ) == Ok::<Seq<char>, ImportErrorView>(
                sources_below(base, first, entries)->Ok_0[i].name,
            ),
    decreases entries.len(),
{
    let all = sources_below(base, first, entries)->Ok_0;
    if entries.len() == 0 {
        assert(all.map_values(|s: SourceView| s.path) =~= Seq::<Seq<u8>>::empty());
    } else {
        lemma_sources(base, first, entries.drop_last());
        let front = sources_below(base, first, entries.drop_last())->Ok_0;
        match entries.last() {
            WalkView::File(path) => {
                assert(all.map_values(|s: SourceView| s.path) =~= front.map_values(
                    |s: SourceView| s.path,
                ).push(path));
                assert forall|i: int| 0 <= i < all.len() implies file_name(
                    base,
                    first,
                    (#[trigger] all[i]).path,
                ) == Ok::<Seq<char>, ImportErrorView>(all[i].name) by {
                    if i < front.len() {
                        assert(all[i] == front[i]);
                    }
                }
            },
            _ => {},
        }
    }
}

/// A single file is imported under the last component of the path that was given, also where that
/// is a symbolic link to the file.
pub proof fn law_single_file_keeps_its_name(given: Seq<u8>, path: Seq<u8>)
    requires
        shared_component(given, path) is Some,
        paths::last_name(given) is Some,
        !paths::last_name(given).unwrap().contains('\\'),
    ensures
        sources_of(given, path, seq![WalkView::File(path)]) == Ok::<
            Seq<SourceView>,
            ImportErrorView,
        >(seq![SourceView { name: paths::last_name(given).unwrap(), path }]),
{
    let base = paths::components(path);
    let own = paths::components(given);
    let first = own.last();
    let name = paths::last_name(given).unwrap();
    let rest = base.skip(base.len() as int);
    let parts = seq![first] + rest;
    assert(base =~= base.subrange(0, base.len() as int));
    assert(parts =~= seq![first]);
    paths::lemma_component_names(given);
    assert(own[own.len() - 1] == first);
    paths::lemma_name_text(first->Normal_0);
    assert(parts.drop_last() =~= Seq::<ComponentView>::empty());
    reveal_with_fuel(paths::first_error, 2);
    reveal_with_fuel(paths::names, 2);
    reveal_with_fuel(paths::roots, 2);
    assert(paths::first_error(parts, true) is None);
    assert(paths::names(parts) =~= seq![name]);
    assert(paths::canonical_text(parts) =~= name);
    assert(file_name(base, first, path) == Ok::<Seq<char>, ImportErrorView>(name));
    let entries = seq![WalkView::File(path)];
    assert(entries.drop_last() =~= Seq::<WalkView>::empty());
    reveal_with_fuel(sources_below, 2);
    assert(sources_below(base, first, entries)->Ok_0 =~= seq![SourceView { name, path }]);
}

// ---------------------------------------------------------------------------------------
// Progress
// ---------------------------------------------------------------------------------------

/// A file of at most this size gets no bar of its own: it would only flash.
pub const MIN_IMPORT_BAR_BYTES: u64 = 8_388_608;

/// The message of the bar for all files, which is shown where there is more than one.
pub open spec fn overall_message(files: nat) -> Option<Seq<char>> {
    if files > 1 {
        Some("importing "@ + text::decimal(files) + " files"@)
    } else {
        None
    }
}

/// The message of the bar for all files, where one is shown.
pub fn write_overall_message(files: usize) -> (r: Option<String>)
    ensures
        r matches Some(s) ==> overall_message(files as nat) == Some(s@),
        r is None ==> overall_message(files as nat) is None,
{
    if files > 1 {
        let mut s = "importing ".to_string();
        s.append(text::decimal_string(files as u64).as_str());
        s.append(" files");
        Some(s)
    } else {
        None
    }
}

/// A step in the import of one file.
#[derive(Debug)]
pub enum ImportEvent {
    /// The size of the file.
    Size(u64),
    /// The copy reached an offset.
    CopyProgress(u64),
    /// The copy is complete.
    CopyDone,
    /// The hashing reached an offset.
    OutboardProgress(u64),
    /// The import failed, with a message.
    Error(String),
    /// The import is complete.
    Done,
    /// Nothing more comes.
    Ended,
}

/// What is to be done after a step.
#[derive(Debug)]
pub enum ImportAction {
    /// Nothing.
    Nothing,
    /// Show a bar.
    Open { message: String, length: u64 },
    /// Move the bar.
    Move { position: u64 },
    /// Give the bar another message and move it back.
    Restart { message: String },
    /// Stop, and clear the bar where one is shown. The file has the given size.
    Finish { clear: bool, size: u64 },
    /// Stop with an error, and clear the bar where one is shown.
    Fail { clear: bool, message: String },
}

/// What an [`ImportAction`] holds.
pub enum ImportActionView {
    /// Nothing.
    Nothing,
    /// Show a bar.
    Open { message: Seq<char>, length: u64 },
    /// Move the bar.
    Move { position: u64 },
    /// Give the bar another message and move it back.
    Restart { message: Seq<char> },
    /// Stop, and clear the bar where one is shown. The file has the given size.
    Finish { clear: bool, size: u64 },
    /// Stop with an error, and clear the bar where one is shown.
    Fail { clear: bool, message: Seq<char> },
}

impl View for ImportAction {
    type V = ImportActionView;

    open spec fn view(&self) -> ImportActionView {
        match self {
            ImportAction::Nothing => ImportActionView::Nothing,
            ImportAction::Open { message, length } => ImportActionView::Open {
                message: message@,
                length: *length,
            },
            ImportAction::Move { position } => ImportActionView::Move { position: *position },
            ImportAction::Restart { message } => ImportActionView::Restart { message: message@ },
            ImportAction::Finish { clear, size } => ImportActionView::Finish {
                clear: *clear,
                size: *size,
            },
            ImportAction::Fail { clear, message } => ImportActionView::Fail {
                clear: *clear,
                message: message@,
            },
        }
    }
}

/// The import of one file.
#[derive(Debug)]
pub struct ImportItem {
    /// The name of the file.
    pub name: String,
    /// Its size, as far as it is known.
    pub size: u64,
    /// Whether it has a bar.
    pub bar: bool,
}

/// What an [`ImportItem`] holds.
#[verifier::ext_equal]
pub struct ImportItemView {
    /// The name of the file.
    pub name: Seq<char>,
    /// Its size, as far as it is known.
    pub size: u64,
    /// Whether it has a bar.
    pub bar: bool,
}

impl View for ImportItem {
    type V = ImportItemView;

    open spec fn view(&self) -> ImportItemView {
        ImportItemView { name: self.name@, size: self.size, bar: self.bar }
    }
}

impl ImportItemView {
    /// The import after a step.
    pub open spec fn after(self, e: ImportEvent) -> ImportItemView {
        match e {
            ImportEvent::Size(size) => ImportItemView {
                size,
                bar: self.bar || size > MIN_IMPORT_BAR_BYTES,
                ..self
            },
            _ => self,
        }
    }

    /// What is to be done after a step.
    pub open spec fn action(self, e: ImportEvent) -> ImportActionView {
        match e {
            ImportEvent::Size(size) => if size > MIN_IMPORT_BAR_BYTES {
                ImportActionView::Open { message: "copying "@ + self.name, length: size }
            } else {
                ImportActionView::Nothing
            },
            ImportEvent::CopyProgress(offset) => self.moved(offset),
            ImportEvent::CopyDone => if self.bar {
                ImportActionView::Restart { message: "computing outboard "@ + self.name }
            } else {
                ImportActionView::Nothing
            },
            ImportEvent::OutboardProgress(offset) => self.moved(offset),
            ImportEvent::Error(cause) => ImportActionView::Fail {
                clear: self.bar,
                message: "error importing "@ + self.name + ": "@ + cause@,
            },
            ImportEvent::Done => ImportActionView::Finish { clear: self.bar, size: self.size },
            ImportEvent::Ended => ImportActionView::Fail {
                clear: false,
                message: "import stream ended without a tag"@,
            },
        }
    }

    /// The bar, where there is one, at an offset.
    pub open spec fn moved(self, offset: u64) -> ImportActionView {
        if self.bar {
            ImportActionView::Move { position: offset }
        } else {
            ImportActionView::Nothing
        }
    }
}

impl ImportItem {
    /// A file of which nothing is known yet but the name.
    pub fn new(name: &str) -> (r: ImportItem)
        ensures
            r@ == (ImportItemView { name: name@, size: 0, bar: false }),
    {
        ImportItem { name: name.to_string(), size: 0, bar: false }
    }

    fn moved(&self, offset: u64) -> (r: ImportAction)
        ensures
            r@ == self@.moved(offset),
    {
        if self.bar {
            ImportAction::Move { position: offset }
        } else {
            ImportAction::Nothing
        }
    }

    /// Takes note of a step and says what is to be done.
    pub fn handle(&mut self, event: ImportEvent) -> (r: ImportAction)
        ensures
            final(self)@ == old(self)@.after(event),
            r@ == old(self)@.action(event),
    {
        match event {
            ImportEvent::Size(size) => {
                self.size = size;
                if size > MIN_IMPORT_BAR_BYTES {
                    self.bar = true;
                    let mut message = "copying ".to_string();
                    message.append(self.name.as_str());
                    ImportAction::Open { message, length: size }
                } else {
                    ImportAction::Nothing
                }
            },
            ImportEvent::CopyProgress(offset) => self.moved(offset),
            ImportEvent::CopyDone => if self.bar {
                let mut message = "computing outboard ".to_string();
                message.append(self.name.as_str());
                ImportAction::Restart { message }
            } else {
                ImportAction::Nothing
            },
            ImportEvent::OutboardProgress(offset) => self.moved(offset),
            ImportEvent::Error(cause) => {
                let mut message = "error importing ".to_string();
                message.append(self.name.as_str());
                message.append(": ");
                message.append(cause.as_str());
                ImportAction::Fail { clear: self.bar, message }
            },
            ImportEvent::Done => ImportAction::Finish { clear: self.bar, size: self.size },
            ImportEvent::Ended => ImportAction::Fail {
                clear: false,
                message: "import stream ended without a tag".to_string(),
            },
        }
    }
}

// ---------------------------------------------------------------------------------------
// The collection
// ---------------------------------------------------------------------------------------

/// A file that was imported.
#[derive(Debug)]
pub struct ImportedFile {
    /// The name in the collection.
    pub name: String,
    /// The hash of its content.
    pub hash: [u8; 32],
    /// Its size in bytes.
    pub size: u64,
}

/// What an [`ImportedFile`] holds.
#[verifier::ext_equal]
pub struct FileView {
    /// The name in the collection.
    pub name: Seq<char>,
    /// The hash of its content.
    pub hash: Seq<u8>,
    /// Its size in bytes.
    pub size: u64,
}

impl View for ImportedFile {
    type V = FileView;

    open spec fn view(&self) -> FileView {
        FileView { name: self.name@, hash: self.hash@, size: self.size }
    }
}

/// The views of a sequence of files.
pub open spec fn file_views(files: Seq<ImportedFile>) -> Seq<FileView> {
    files.map_values(|f: ImportedFile| f@)
}

/// Files in the order of their names; files of one name in the order in which they came. The
/// file `f` goes after those that it does not precede.
pub open spec fn with_file(sorted: Seq<ImportedFile>, f: ImportedFile) -> Seq<ImportedFile>
    decreases sorted.len(),
{
    if sorted.len() > 0 && text::precedes(f.name@, sorted.last().name@) {
        with_file(sorted.drop_last(), f).push(sorted.last())
    } else {
        sorted.push(f)
    }
}

/// The files in the order of their names.
pub open spec fn by_name(files: Seq<ImportedFile>) -> Seq<ImportedFile>
    decreases files.len(),
{
    if files.len() == 0 {
        Seq::empty()
    } else {
        with_file(by_name(files.drop_last()), files.last())
    }
}

/// Two runs of files merged from their ends; of two files with one name, that of `a` comes first.
spec fn merge_runs(a: Seq<ImportedFile>, b: Seq<ImportedFile>) -> Seq<ImportedFile>
    decreases a.len() + b.len(),
{
    if a.len() == 0 {
        b
    } else if b.len() == 0 {
        a
    } else if text::precedes(b.last().name@, a.last().name@) {
        merge_runs(a.drop_last(), b).push(a.last())
    } else {
        merge_runs(a, b.drop_last()).push(b.last())
    }
}

/// A file added to the second run ends up where it would in the merged run.
proof fn lemma_merge_with_file(a: Seq<ImportedFile>, b: Seq<ImportedFile>, f: ImportedFile)
    ensures
        merge_runs(a, with_file(b, f)) == with_file(merge_runs(a, b), f),
    decreases a.len() + b.len(),
{
    let g = with_file(b, f);
    if a.len() == 0 {
    } else if b.len() == 0 {
        assert(g =~= seq![f]);
        assert(g.drop_last() =~= b);
        if text::precedes(f.name@, a.last().name@) {
            lemma_merge_with_file(a.drop_last(), b, f);
            if a.drop_last().len() == 0 {
                assert(merge_runs(a.drop_last(), b) =~= a.drop_last());
            }
        }
    } else {
        let x = a.last();
        let y = b.last();
        text::lemma_precedes_total(f.name@, y.name@);
        text::lemma_precedes_total(y.name@, x.name@);
        text::lemma_precedes_total(f.name@, x.name@);
        if text::precedes(f.name@, y.name@) && text::precedes(y.name@, x.name@) {
            text::lemma_precedes_transitive(f.name@, y.name@, x.name@);
        }
        if text::precedes(f.name@, x.name@) && text::precedes(x.name@, y.name@) {
            text::lemma_precedes_transitive(f.name@, x.name@, y.name@);
        }
        let m = merge_runs(a, b);
        if text::precedes(y.name@, x.name@) {
            assert(m.drop_last() =~= merge_runs(a.drop_last(), b));
            lemma_merge_with_file(a.drop_last(), b, f);
            if text::precedes(f.name@, y.name@) {
                assert(g.last() == y);
            } else {
                assert(g.drop_last() =~= b);
            }
        } else {
            assert(m.drop_last() =~= merge_runs(a, b.drop_last()));
            lemma_merge_with_file(a, b.drop_last(), f);
            if text::precedes(f.name@, y.name@) {
                assert(g.drop_last() =~= with_file(b.drop_last(), f));
            } else {
                assert(g.drop_last() =~= b);
            }
        }
    }
}

/// Merging the sorted halves sorts the whole.
proof fn lemma_merge_halves(a: Seq<ImportedFile>, b: Seq<ImportedFile>)
    ensures
        merge_runs(by_name(a), by_name(b)) == by_name(a + b),
    decreases b.len(),
{
    if b.len() == 0 {
        assert(a + b =~= a);
        assert(merge_runs(by_name(a), by_name(b)) =~= by_name(a));
    } else {
        lemma_merge_halves(a, b.drop_last());
        assert((a + b).drop_last() =~= a + b.drop_last());
        lemma_merge_with_file(by_name(a), by_name(b.drop_last()), b.last());
    }
}

/// Moving the last file of a run to the front of what is reversed leaves the whole unchanged.
proof fn lemma_move_last(
    front: Seq<ImportedFile>,
    f: ImportedFile,
    back: Seq<ImportedFile>,
)
    ensures
        front.push(f) + back.reverse() == front + back.push(f).reverse(),
{
    assert(front.push(f) + back.reverse() =~= front + back.push(f).reverse());
}

/// The files of two runs, merged, the last one first.
fn merge_back(a: Vec<ImportedFile>, b: Vec<ImportedFile>) -> (back: Vec<ImportedFile>)
    ensures
        back@.reverse() == merge_runs(a@, b@),
{
    let mut a = a;
    let mut b = b;
    let ghost whole = merge_runs(a@, b@);
    let mut back: Vec<ImportedFile> = Vec::new();
    assert(merge_runs(a@, b@) + back@.reverse() =~= whole);
    while a.len() > 0 || b.len() > 0
        invariant
            merge_runs(a@, b@) + back@.reverse() == whole,
        decreases a.len() + b.len(),
    {
        let ghost x = a@;
        let ghost y = b@;
        let ghost before = back@;
        let from_a = if a.len() == 0 {
            false
        } else if b.len() == 0 {
            true
        } else {
            text::text_precedes(b[b.len() - 1].name.as_str(), a[a.len() - 1].name.as_str())
        };
        let next = if from_a {
            a.pop()
        } else {
            b.pop()
        };
        match next {
            Some(f) => {
                back.push(f);
                proof {
                    let m = merge_runs(a@, b@);
                    assert(merge_runs(x, y) =~= m.push(f));
                    lemma_move_last(m, f, before);
                }
            },
            None => {},
        }
    }
    assert(merge_runs(a@, b@) + back@.reverse() =~= back@.reverse());
    back
}

fn merge(a: Vec<ImportedFile>, b: Vec<ImportedFile>) -> (r: Vec<ImportedFile>)
    ensures
        r@ == merge_runs(a@, b@),
{
    let mut back = merge_back(a, b);
    let ghost whole = back@.reverse();
    let mut r: Vec<ImportedFile> = Vec::new();
    assert(r@ + back@.reverse() =~= whole);
    while back.len() > 0
        invariant
            r@ + back@.reverse() == whole,
        decreases back.len(),
    {
        let ghost before = r@;
        match back.pop() {
            Some(f) => {
                r.push(f);
                proof {
                    lemma_move_last(before, f, back@);
                }
            },
            None => {},
        }
    }
    assert(r@ + back@.reverse() =~= r@);
    r
}

/// Sorts the files by name. Files of one name stay in the order in which they came.
pub fn sort_by_name(files: Vec<ImportedFile>) -> (r: Vec<ImportedFile>)
    ensures
        r@ == by_name(files@),
    decreases files@.len(),
{
    let mut files = files;
    let ghost all = files@;
    if files.len() <= 1 {
        proof {
            if all.len() == 1 {
                assert(all.drop_last() =~= Seq::<ImportedFile>::empty());
                assert(by_name(all.drop_last()) =~= Seq::<ImportedFile>::empty());
                assert(by_name(all) =~= all);
            } else {
                assert(by_name(all) =~= all);
            }
        }
        return files;
    }
    let mid: usize = files.len() / 2;
    let back = files.split_off(mid);
    assert(files@ + back@ =~= all);
    proof {
        lemma_merge_halves(files@, back@);
    }
    let front = sort_by_name(files);
    let back = sort_by_name(back);
    merge(front, back)
}

/// The sizes of the files.
pub open spec fn file_sizes(files: Seq<ImportedFile>) -> Seq<u64> {
    files.map_values(|f: ImportedFile| f.size)
}

/// The size of all files together, where it fits.
pub fn total_size(files: &[ImportedFile]) -> (r: Option<u64>)
    ensures
        r matches Some(n) ==> n == sizes::total(file_sizes(files@)),
        r is None ==> sizes::total(file_sizes(files@)) > u64::MAX,
{
    let mut list: Vec<u64> = Vec::new();
    for i in 0..files.len()
        invariant
            list@ == file_sizes(files@.take(i as int)),
    {
        list.push(files[i].size);
        assert(file_sizes(files@.take(i + 1)) =~= file_sizes(files@.take(i as int)).push(
            files@[i as int].size,
        ));
    }
    assert(files@.take(files@.len() as int) =~= files@);
    sizes::checked_total(list.as_slice())
}

/// An entry of a collection.
#[derive(Debug)]
pub struct CollectionEntry {
    /// The name.
    pub name: String,
    /// The hash of the content.
    pub hash: [u8; 32],
}

/// What a [`CollectionEntry`] holds.
#[verifier::ext_equal]
pub struct EntryView {
    /// The name.
    pub name: Seq<char>,
    /// The hash of the content.
    pub hash: Seq<u8>,
}

impl View for CollectionEntry {
    type V = EntryView;

    open spec fn view(&self) -> EntryView {
        EntryView { name: self.name@, hash: self.hash@ }
    }
}

/// The views of a sequence of entries.
pub open spec fn entry_views(v: Seq<CollectionEntry>) -> Seq<EntryView> {
    v.map_values(|e: CollectionEntry| e@)
}

/// The entries for some files.
pub open spec fn entries_of(files: Seq<ImportedFile>) -> Seq<EntryView> {
    files.map_values(|f: ImportedFile| EntryView { name: f.name@, hash: f.hash@ })
}

/// The collection that some files make.
#[derive(Debug)]
pub struct Imported {
    /// The entries.
    pub entries: Vec<CollectionEntry>,
    /// The size of all files together.
    pub size: u64,
}

/// The collection that the files make, in the order of their names; `None` where they weigh more
/// than can be counted.
pub fn collect_files(files: Vec<ImportedFile>) -> (r: Option<Imported>)
    ensures
        r is Some <==> sizes::total(file_sizes(by_name(files@))) <= u64::MAX,
        r matches Some(c) ==> {
            &&& entry_views(c.entries@) == entries_of(by_name(files@))
            &&& c.size == sizes::total(file_sizes(by_name(files@)))
            &&& c.size == sizes::total(file_sizes(files@))
            &&& c.entries@.len() == files@.len()
            &&& entry_views(c.entries@).to_multiset() == files@.map_values(
                |f: ImportedFile| EntryView { name: f.name@, hash: f.hash@ },
            ).to_multiset()
        },
{
    proof {
        law_collection_holds_every_file(files@);
        law_by_name_size(files@);
    }
    let sorted = sort_by_name(files);
    let size = match total_size(sorted.as_slice()) {
        Some(n) => n,
        None => {
            return None;
        },
    };
    let mut entries: Vec<CollectionEntry> = Vec::new();
    for i in 0..sorted.len()
        invariant
            entry_views(entries@) == entries_of(sorted@.take(i as int)),
    {
        let ghost before = entries@;
        entries.push(
            CollectionEntry { name: sorted[i].name.as_str().to_string(), hash: sorted[i].hash },
        );
        assert(entry_views(entries@) =~= entry_views(before).push(
            EntryView { name: sorted@[i as int].name@, hash: sorted@[i as int].hash@ },
        ));
        assert(entries_of(sorted@.take(i + 1)) =~= entries_of(sorted@.take(i as int)).push(
            EntryView { name: sorted@[i as int].name@, hash: sorted@[i as int].hash@ },
        ));
    }
    assert(sorted@.take(sorted@.len() as int) =~= sorted@);
    assert(entry_views(entries@).len() == entries@.len());
    Some(Imported { entries, size })
}

/// No name comes before one that stands in front of it.
pub open spec fn names_in_order(files: Seq<ImportedFile>) -> bool {
    forall|i: int, j: int|
        0 <= i < j < files.len() ==> !text::precedes(
            (#[trigger] files[j]).name@,
            (#[trigger] files[i]).name@,
        )
}

proof fn lemma_with_file(sorted: Seq<ImportedFile>, f: ImportedFile)
    requires
        names_in_order(sorted),
    ensures
        names_in_order(with_file(sorted, f)),
        with_file(sorted, f).to_multiset() == sorted.to_multiset().insert(f),
        forall|n: Seq<char>|
            (forall|i: int| 0 <= i < sorted.len() ==> !text::precedes(n, (#[trigger] sorted[i]).name@))
                && !text::precedes(n, f.name@) ==> forall|i: int|
                0 <= i < with_file(sorted, f).len() ==> !text::precedes(
                    n,
                    (#[trigger] with_file(sorted, f)[i]).name@,
                ),
    decreases sorted.len(),
{
    broadcast use vstd::seq_lib::group_to_multiset_ensures;

    let all = with_file(sorted, f);
    if sorted.len() > 0 && text::precedes(f.name@, sorted.last().name@) {
        let front = sorted.drop_last();
        let last = sorted.last();
        assert(forall|i: int| 0 <= i < front.len() ==> front[i] == sorted[i]);
        lemma_with_file(front, f);
        let tail = with_file(front, f);
        text::lemma_precedes_total(last.name@, f.name@);
        assert(forall|i: int| 0 <= i < front.len() ==> !text::precedes(last.name@, (#[trigger] front[i]).name@)) by {
            assert(sorted[sorted.len() - 1] == last);
        }
        assert forall|i: int, j: int| 0 <= i < j < all.len() implies !text::precedes(
            (#[trigger] all[j]).name@,
            (#[trigger] all[i]).name@,
        ) by {
            assert(all[i] == tail[i]);
            if j < all.len() - 1 {
                assert(all[j] == tail[j]);
            }
        }
        assert(sorted =~= front.push(last));
        assert(all.to_multiset() =~= sorted.to_multiset().insert(f));
        assert forall|n: Seq<char>|
            (forall|i: int| 0 <= i < sorted.len() ==> !text::precedes(n, (#[trigger] sorted[i]).name@))
                && !text::precedes(n, f.name@) implies forall|i: int|
            0 <= i < all.len() ==> !text::precedes(n, (#[trigger] all[i]).name@) by {
            assert(forall|i: int| 0 <= i < front.len() ==> !text::precedes(n, (#[trigger] front[i]).name@));
            assert(sorted[sorted.len() - 1] == last);
            assert forall|i: int| 0 <= i < all.len() implies !text::precedes(
                n,
                (#[trigger] all[i]).name@,
            ) by {
                if i < all.len() - 1 {
                    assert(all[i] == tail[i]);
                }
            }
        }
    } else {
        assert forall|i: int, j: int| 0 <= i < j < all.len() implies !text::precedes(
            (#[trigger] all[j]).name@,
            (#[trigger] all[i]).name@,
        ) by {
            assert(all[i] == sorted[i]);
            if j < all.len() - 1 {
                assert(all[j] == sorted[j]);
            } else {
                let last = sorted.last();
                assert(sorted[sorted.len() - 1] == last);
                if i < sorted.len() - 1 {
                    assert(!text::precedes(last.name@, sorted[i].name@));
                    lemma_not_before(f.name@, last.name@, sorted[i].name@);
                }
            }
        }
    }
}

/// What does not precede a text precedes nothing that the text does not precede.
proof fn lemma_not_before(a: Seq<char>, b: Seq<char>, c: Seq<char>)
    requires
        !text::precedes(a, b),
        !text::precedes(b, c),
    ensures
        !text::precedes(a, c),
{
    text::lemma_precedes_total(a, b);
    text::lemma_precedes_total(b, c);
    text::lemma_precedes_total(a, c);
    if text::precedes(a, c) {
        if text::precedes(b, a) {
            text::lemma_precedes_transitive(b, a, c);
        }
    }
}

/// The files of the given name, in order.
pub open spec fn files_named(files: Seq<ImportedFile>, name: Seq<char>) -> Seq<ImportedFile>
    decreases files.len(),
{
    if files.len() == 0 {
        Seq::empty()
    } else if files.last().name@ == name {
        files_named(files.drop_last(), name).push(files.last())
    } else {
        files_named(files.drop_last(), name)
    }
}

proof fn lemma_with_file_named(sorted: Seq<ImportedFile>, f: ImportedFile, name: Seq<char>)
    requires
        names_in_order(sorted),
    ensures
        files_named(with_file(sorted, f), name) == files_named(sorted.push(f), name),
    decreases sorted.len(),
{
    assert(sorted.push(f).drop_last() =~= sorted);
    if sorted.len() > 0 && text::precedes(f.name@, sorted.last().name@) {
        let front = sorted.drop_last();
        let last = sorted.last();
        assert(forall|i: int| 0 <= i < front.len() ==> front[i] == sorted[i]);
        lemma_with_file_named(front, f, name);
        assert(front.push(f).drop_last() =~= front);
        assert(with_file(sorted, f).drop_last() =~= with_file(front, f));
        assert(with_file(sorted, f).last() == last);
        assert(sorted.push(f).last() == f);
        assert(front.push(f).last() == f);
        text::lemma_precedes_total(f.name@, last.name@);
        reveal_with_fuel(files_named, 3);
    }
}

/// Sorting leaves files of one name in the order in which they came.
pub proof fn law_by_name_is_stable(files: Seq<ImportedFile>, name: Seq<char>)
    ensures
        files_named(by_name(files), name) == files_named(files, name),
    decreases files.len(),
{
    if files.len() > 0 {
        let front = files.drop_last();
        law_by_name_is_stable(front, name);
        law_by_name(front);
        lemma_with_file_named(by_name(front), files.last(), name);
        assert(by_name(front).push(files.last()).drop_last() =~= by_name(front));
    }
}

/// Adding a file adds its size, wherever it goes.
proof fn lemma_with_file_size(sorted: Seq<ImportedFile>, f: ImportedFile)
    ensures
        sizes::total(file_sizes(with_file(sorted, f))) == sizes::total(file_sizes(sorted)) + f.size,
    decreases sorted.len(),
{
    let all = with_file(sorted, f);
    if sorted.len() > 0 && text::precedes(f.name@, sorted.last().name@) {
        lemma_with_file_size(sorted.drop_last(), f);
        assert(file_sizes(all).drop_last() =~= file_sizes(with_file(sorted.drop_last(), f)));
        assert(file_sizes(sorted).drop_last() =~= file_sizes(sorted.drop_last()));
    } else {
        assert(file_sizes(all).drop_last() =~= file_sizes(sorted));
    }
}

/// The size of a collection is that of its files, in whatever order they came.
pub proof fn law_by_name_size(files: Seq<ImportedFile>)
    ensures
        sizes::total(file_sizes(by_name(files))) == sizes::total(file_sizes(files)),
    decreases files.len(),
{
    if files.len() > 0 {
        law_by_name_size(files.drop_last());
        lemma_with_file_size(by_name(files.drop_last()), files.last());
        assert(file_sizes(files).drop_last() =~= file_sizes(files.drop_last()));
    } else {
        assert(by_name(files) =~= files);
    }
}

/// Sorting keeps every file and puts the names in order.
pub proof fn law_by_name(files: Seq<ImportedFile>)
    ensures
        names_in_order(by_name(files)),
        by_name(files).to_multiset() == files.to_multiset(),
    decreases files.len(),
{
    broadcast use vstd::seq_lib::group_to_multiset_ensures;

    if files.len() > 0 {
        let front = files.drop_last();
        law_by_name(front);
        lemma_with_file(by_name(front), files.last());
        assert(files =~= front.push(files.last()));
        assert(by_name(files).to_multiset() =~= files.to_multiset());
    } else {
        assert(by_name(files) =~= files);
    }
}

/// Whether `b` holds the files of `a`, each as often, in whatever order.
pub open spec fn same_files(a: Seq<ImportedFile>, b: Seq<ImportedFile>) -> bool {
    file_views(a).to_multiset() == file_views(b).to_multiset()
}

/// Whether no two different files have one name.
pub open spec fn one_file_per_name(files: Seq<FileView>) -> bool {
    forall|i: int, j: int|
        0 <= i < files.len() && 0 <= j < files.len() && (#[trigger] files[i]).name == (
        #[trigger] files[j]).name ==> files[i] == files[j]
}

/// No name comes before one that stands in front of it.
spec fn views_in_order(files: Seq<FileView>) -> bool {
    forall|i: int, j: int|
        0 <= i < j < files.len() ==> !text::precedes(
            (#[trigger] files[j]).name,
            (#[trigger] files[i]).name,
        )
}

/// Sequences with the same elements hold one file per name alike.
proof fn lemma_one_file_per_name(a: Seq<FileView>, b: Seq<FileView>)
    requires
        one_file_per_name(a),
        a.to_multiset() == b.to_multiset(),
    ensures
        one_file_per_name(b),
{
    broadcast use vstd::seq_lib::group_to_multiset_ensures;

    assert forall|i: int, j: int|
        0 <= i < b.len() && 0 <= j < b.len() && (#[trigger] b[i]).name == (
        #[trigger] b[j]).name implies b[i] == b[j] by {
        assert(b.to_multiset().count(b[i]) > 0);
        assert(b.to_multiset().count(b[j]) > 0);
        assert(a.contains(b[i]));
        assert(a.contains(b[j]));
    }
}

/// The last files of two sequences in order with the same files are the same.
proof fn lemma_last_is_same(a: Seq<FileView>, b: Seq<FileView>)
    requires
        views_in_order(a),
        views_in_order(b),
        one_file_per_name(a),
        a.to_multiset() == b.to_multiset(),
        a.len() > 0,
        b.len() > 0,
    ensures
        a.last() == b.last(),
{
    broadcast use vstd::seq_lib::group_to_multiset_ensures;

    let x = a.last();
    let y = b.last();
    assert(a[a.len() - 1] == x);
    assert(b[b.len() - 1] == y);
    assert(a.to_multiset().count(x) > 0);
    assert(b.to_multiset().count(y) > 0);
    let i = choose|i: int| 0 <= i < a.len() && a[i] == y;
    let j = choose|j: int| 0 <= j < b.len() && b[j] == x;
    assert(a.contains(y));
    assert(b.contains(x));
    text::lemma_precedes_total(x.name, y.name);
    if i < a.len() - 1 {
        assert(!text::precedes(a[a.len() - 1].name, a[i].name));
    }
    if j < b.len() - 1 {
        assert(!text::precedes(b[b.len() - 1].name, b[j].name));
    }
}

/// Two sequences in order with the same files are the same.
proof fn lemma_in_order_is_unique(a: Seq<FileView>, b: Seq<FileView>)
    requires
        views_in_order(a),
        views_in_order(b),
        one_file_per_name(a),
        a.to_multiset() == b.to_multiset(),
    ensures
        a == b,
    decreases a.len(),
{
    broadcast use vstd::seq_lib::group_to_multiset_ensures;

    assert(a.len() == a.to_multiset().len());
    assert(b.len() == b.to_multiset().len());
    if a.len() == 0 {
        assert(a =~= b);
    } else {
        lemma_last_is_same(a, b);
        let x = a.drop_last();
        let y = b.drop_last();
        let last = a.last();
        assert(a =~= x.push(last));
        assert(b =~= y.push(last));
        assert(a.to_multiset() == x.to_multiset().insert(last));
        assert(b.to_multiset() == y.to_multiset().insert(last));
        assert(x.to_multiset() =~= a.to_multiset().remove(last));
        assert(y.to_multiset() =~= b.to_multiset().remove(last));
        assert(forall|i: int| 0 <= i < x.len() ==> x[i] == a[i]);
        assert(forall|i: int| 0 <= i < y.len() ==> y[i] == b[i]);
        lemma_in_order_is_unique(x, y);
    }
}

/// Adding a file adds what it holds, wherever it goes.
proof fn lemma_with_file_views(sorted: Seq<ImportedFile>, f: ImportedFile)
    ensures
        file_views(with_file(sorted, f)).to_multiset() == file_views(sorted).to_multiset().insert(
            f@,
        ),
    decreases sorted.len(),
{
    broadcast use vstd::seq_lib::group_to_multiset_ensures;

    let all = with_file(sorted, f);
    if sorted.len() > 0 && text::precedes(f.name@, sorted.last().name@) {
        let front = sorted.drop_last();
        lemma_with_file_views(front, f);
        assert(file_views(all) =~= file_views(with_file(front, f)).push(sorted.last()@));
        assert(file_views(sorted) =~= file_views(front).push(sorted.last()@));
        assert(file_views(all).to_multiset() =~= file_views(sorted).to_multiset().insert(f@));
    } else {
        assert(file_views(all) =~= file_views(sorted).push(f@));
    }
}

/// Sorting keeps what every file holds.
proof fn lemma_by_name_views(files: Seq<ImportedFile>)
    ensures
        same_files(files, by_name(files)),
        views_in_order(file_views(by_name(files))),
    decreases files.len(),
{
    broadcast use vstd::seq_lib::group_to_multiset_ensures;

    law_by_name(files);
    if files.len() > 0 {
        let front = files.drop_last();
        lemma_by_name_views(front);
        lemma_with_file_views(by_name(front), files.last());
        assert(file_views(files) =~= file_views(front).push(files.last()@));
    } else {
        assert(by_name(files) =~= files);
    }
    let sorted = by_name(files);
    let views = file_views(sorted);
    assert forall|i: int, j: int| 0 <= i < j < views.len() implies !text::precedes(
        (#[trigger] views[j]).name,
        (#[trigger] views[i]).name,
    ) by {
        assert(views[i] == sorted[i]@);
        assert(views[j] == sorted[j]@);
    }
}

/// The order in which the files came does not show: where each name stands for one file, the same
/// files make the same collection.
pub proof fn law_order_of_files_does_not_show(a: Seq<ImportedFile>, b: Seq<ImportedFile>)
    requires
        same_files(a, b),
        one_file_per_name(file_views(a)),
    ensures
        entries_of(by_name(a)) == entries_of(by_name(b)),
        sizes::total(file_sizes(by_name(a))) == sizes::total(file_sizes(by_name(b))),
{
    lemma_by_name_views(a);
    lemma_by_name_views(b);
    let x = file_views(by_name(a));
    let y = file_views(by_name(b));
    lemma_one_file_per_name(file_views(a), x);
    lemma_in_order_is_unique(x, y);
    assert forall|i: int| 0 <= i < x.len() implies by_name(a)[i]@ == by_name(b)[i]@ by {
        assert(x[i] == by_name(a)[i]@);
        assert(y[i] == by_name(b)[i]@);
    }
    assert(x.len() == by_name(a).len() && y.len() == by_name(b).len());
    assert(entries_of(by_name(a)) =~= entries_of(by_name(b))) by {
        assert forall|i: int| 0 <= i < x.len() implies entries_of(by_name(a))[i] == entries_of(
            by_name(b),
        )[i] by {
            assert(by_name(a)[i]@ == by_name(b)[i]@);
        }
    }
    assert(file_sizes(by_name(a)) =~= file_sizes(by_name(b))) by {
        assert forall|i: int| 0 <= i < x.len() implies file_sizes(by_name(a))[i] == file_sizes(
            by_name(b),
        )[i] by {
            assert(by_name(a)[i]@ == by_name(b)[i]@);
        }
    }
}

/// The files of a walk that comes across no file twice have names of their own.
proof fn lemma_results_one_per_name(
    given: Seq<u8>,
    path: Seq<u8>,
    entries: Seq<WalkView>,
    results: Seq<ImportedFile>,
)
    requires
        sources_of(given, path, entries) is Ok,
        walks_no_file_twice(entries),
        named_like(results, sources_of(given, path, entries)->Ok_0),
    ensures
        one_file_per_name(file_views(results)),
{
    let base = paths::components(path);
    let first = shared_component(given, path).unwrap();
    let sources = sources_of(given, path, entries)->Ok_0;
    let views = file_views(results);
    lemma_sources(base, first, entries);
    assert forall|i: int, j: int|
        0 <= i < views.len() && 0 <= j < views.len() && (#[trigger] views[i]).name == (
        #[trigger] views[j]).name implies views[i] == views[j] by {
        assert(results[i].name@ == sources[i].name);
        assert(results[j].name@ == sources[j].name);
        if i != j {
            law_different_files_have_different_names(
                given,
                path,
                sources[i].path,
                sources[j].path,
            );
            let walked = walked_files(entries);
            let found = sources.map_values(|s: SourceView| s.path);
            assert(found[i] == sources[i].path);
            assert(found[j] == sources[j].path);
            assert(paths::components(walked[i]) == paths::components(walked[j]));
        }
    }
}

/// Whether the walk came across no file twice.
pub open spec fn walks_no_file_twice(entries: Seq<WalkView>) -> bool {
    forall|i: int, j: int|
        0 <= i < j < walked_files(entries).len() ==> paths::components(
            #[trigger] walked_files(entries)[i],
        ) != paths::components(#[trigger] walked_files(entries)[j])
}

/// Whether the files have the names of the sources.
pub open spec fn named_like(files: Seq<ImportedFile>, sources: Seq<SourceView>) -> bool {
    &&& files.len() == sources.len()
    &&& forall|i: int|
        0 <= i < files.len() ==> (#[trigger] files[i]).name@ == sources[i].name
}

/// How many files are imported at a time, and which of them is done first, does not show: two runs
/// over one walk that come to the same result for each file make the same collection.
pub proof fn law_jobs_do_not_show(
    given: Seq<u8>,
    path: Seq<u8>,
    entries: Seq<WalkView>,
    results: Seq<ImportedFile>,
    a: Seq<ImportedFile>,
    b: Seq<ImportedFile>,
)
    requires
        sources_of(given, path, entries) is Ok,
        walks_no_file_twice(entries),
        named_like(results, sources_of(given, path, entries)->Ok_0),
        same_files(results, a),
        same_files(results, b),
    ensures
        entries_of(by_name(a)) == entries_of(by_name(b)),
        sizes::total(file_sizes(by_name(a))) == sizes::total(file_sizes(by_name(b))),
{
    lemma_results_one_per_name(given, path, entries, results);
    lemma_one_file_per_name(file_views(results), file_views(a));
    law_order_of_files_does_not_show(a, b);
}

// ---------------------------------------------------------------------------------------
// What holds of the collection
// ---------------------------------------------------------------------------------------

/// Adding a file adds its entry, wherever it goes.
proof fn lemma_with_file_entries(sorted: Seq<ImportedFile>, f: ImportedFile)
    ensures
        entries_of(with_file(sorted, f)).to_multiset() == entries_of(sorted).to_multiset().insert(
            EntryView { name: f.name@, hash: f.hash@ },
        ),
        with_file(sorted, f).len() == sorted.len() + 1,
    decreases sorted.len(),
{
    broadcast use vstd::seq_lib::group_to_multiset_ensures;

    let all = with_file(sorted, f);
    let e = EntryView { name: f.name@, hash: f.hash@ };
    if sorted.len() > 0 && text::precedes(f.name@, sorted.last().name@) {
        let front = sorted.drop_last();
        let last = sorted.last();
        let g = EntryView { name: last.name@, hash: last.hash@ };
        lemma_with_file_entries(front, f);
        assert(entries_of(all) =~= entries_of(with_file(front, f)).push(g));
        assert(entries_of(sorted) =~= entries_of(front).push(g));
        assert(entries_of(all).to_multiset() =~= entries_of(sorted).to_multiset().insert(e));
    } else {
        assert(entries_of(all) =~= entries_of(sorted).push(e));
    }
}

/// A collection has an entry for each file and no other: every file is in it, whatever its size, as
/// often as it was imported, under its own name and with its own hash.
pub proof fn law_collection_holds_every_file(files: Seq<ImportedFile>)
    ensures
        entries_of(by_name(files)).len() == files.len(),
        entries_of(by_name(files)).to_multiset() == files.map_values(
            |f: ImportedFile| EntryView { name: f.name@, hash: f.hash@ },
        ).to_multiset(),
    decreases files.len(),
{
    broadcast use vstd::seq_lib::group_to_multiset_ensures;

    let pairs = files.map_values(
        |f: ImportedFile| EntryView { name: f.name@, hash: f.hash@ },
    );
    if files.len() > 0 {
        let front = files.drop_last();
        let f = files.last();
        let e = EntryView { name: f.name@, hash: f.hash@ };
        law_collection_holds_every_file(front);
        lemma_with_file_entries(by_name(front), f);
        let before = front.map_values(
            |f: ImportedFile| EntryView { name: f.name@, hash: f.hash@ },
        );
        assert(pairs =~= before.push(e));
        assert(entries_of(by_name(files)).to_multiset() =~= pairs.to_multiset());
        assert(entries_of(by_name(files)).len() == by_name(files).len());
        assert(entries_of(by_name(front)).len() == by_name(front).len());
    } else {
        assert(entries_of(by_name(files)) =~= pairs);
    }
}

/// The entry of every imported file is found in the collection, and every entry is that of an
/// imported file.
pub proof fn law_collection_entries(files: Seq<ImportedFile>, name: Seq<char>, hash: Seq<u8>)
    ensures
        entries_of(by_name(files)).contains(EntryView { name, hash }) <==> exists|i: int|
            0 <= i < files.len() && (#[trigger] files[i]).name@ == name && files[i].hash@ == hash,
{
    broadcast use vstd::seq_lib::group_to_multiset_ensures;

    law_collection_holds_every_file(files);
    let pairs = files.map_values(
        |f: ImportedFile| EntryView { name: f.name@, hash: f.hash@ },
    );
    let e = EntryView { name, hash };
    let entries = entries_of(by_name(files));
    assert(entries.contains(e) <==> entries.to_multiset().count(e) > 0);
    assert(pairs.contains(e) <==> pairs.to_multiset().count(e) > 0);
    if pairs.contains(e) {
        let i = choose|i: int| 0 <= i < pairs.len() && pairs[i] == e;
        assert(files[i].name@ == name && files[i].hash@ == hash);
    }
    if exists|i: int|
        0 <= i < files.len() && (#[trigger] files[i]).name@ == name && files[i].hash@ == hash {
        let i = choose|i: int|
            0 <= i < files.len() && (#[trigger] files[i]).name@ == name && files[i].hash@ == hash;
        assert(pairs[i] == e);
    }
}

/// The entries of a collection stand in the order of their names.
pub proof fn law_collection_in_order(files: Seq<ImportedFile>, i: int, j: int)
    requires
        0 <= i < j < entries_of(by_name(files)).len(),
    ensures
        !text::precedes(
            entries_of(by_name(files))[j].name,
            entries_of(by_name(files))[i].name,
        ),
{
    law_by_name(files);
    let sorted = by_name(files);
    assert(entries_of(sorted)[i].name == sorted[i].name@);
    assert(entries_of(sorted)[j].name == sorted[j].name@);
}

/// Each file adds its size to that of the collection.
pub proof fn law_collection_size(files: Seq<ImportedFile>, f: ImportedFile)
    ensures
        sizes::total(file_sizes(by_name(files.push(f)))) == sizes::total(
            file_sizes(by_name(files)),
        ) + f.size,
        sizes::total(file_sizes(by_name(Seq::empty()))) == 0,
{
    assert(files.push(f).drop_last() =~= files);
    lemma_with_file_size(by_name(files), f);
    law_by_name_size(Seq::empty());
    assert(file_sizes(Seq::empty()) =~= Seq::<u64>::empty());
}

// ---------------------------------------------------------------------------------------
// What holds of the names
// ---------------------------------------------------------------------------------------

/// What is shared goes by the last name of the path that was given, whatever that stands for.
pub proof fn law_shared_under_given_name(dir: Seq<u8>, name: Seq<u8>, path: Seq<u8>)
    requires
        name.len() > 0,
        !name.contains(47),
        name != seq![46u8],
        name != seq![46u8, 46u8],
        paths::components(path).len() > 0,
        !(paths::components(path).last() is RootDir),
    ensures
        shared_component(paths::joined(dir, name), path) == Some(ComponentView::Normal(name)),
{
    let given = paths::joined(dir, name);
    paths::law_joined(dir, name);
    assert(!(name[0] == 47)) by {
        assert(name.contains(name[0]));
    }
    paths::law_written_pieces(name);
    let written = paths::written_components(dir);
    let c = ComponentView::Normal(name);
    assert(written + seq![c] =~= written.push(c));
    assert(written.push(c).drop_last() =~= written);
    assert(paths::components(given) =~= paths::components(dir).push(c));
}

/// A path that was given and ends in no name is shared under the last component of what it stands
/// for. The root is not shared at all.
pub proof fn law_shared_under_own_name(given: Seq<u8>, path: Seq<u8>)
    ensures
        paths::components(path).len() == 0 || paths::components(path).last() is RootDir
            ==> shared_component(given, path) is None,
        paths::components(path).len() > 0 && !(paths::components(path).last() is RootDir) && !(
        paths::components(given).len() > 0 && paths::components(given).last() is Normal)
            ==> shared_component(given, path) == Some(paths::components(path).last()),
{
}

/// Whether a component can be part of a name: it is a name in text, without a separator of either
/// kind.
pub open spec fn can_be_named(c: ComponentView) -> bool {
    c matches ComponentView::Normal(n) && vstd::utf8::valid_utf8(n) && !vstd::utf8::decode_utf8(
        n,
    ).contains('/') && !vstd::utf8::decode_utf8(n).contains('\\')
}

/// A file has a name exactly where it lies at or below what is shared and each of its components
/// from there on can be part of one. The name has these components between its separators, after
/// the one under which everything is shared.
pub proof fn law_file_name(base: Seq<ComponentView>, first: ComponentView, file: Seq<u8>)
    ensures
        ({
            let all = paths::components(file);
            let parts = seq![first] + all.skip(base.len() as int);
            &&& file_name(base, first, file) is Ok <==> base.is_prefix_of(all) && forall|i: int|
                0 <= i < parts.len() ==> can_be_named(#[trigger] parts[i])
            &&& file_name(base, first, file) == Err::<Seq<char>, ImportErrorView>(
                ImportErrorView::Prefix,
            ) <==> !base.is_prefix_of(all)
            &&& file_name(base, first, file) matches Ok(name) ==> {
                let between = text::split(name, '/');
                &&& between.len() == parts.len()
                &&& forall|i: int|
                    0 <= i < parts.len() ==> #[trigger] between[i] == vstd::utf8::decode_utf8(
                        parts[i]->Normal_0,
                    )
            }
        }),
{
    let all = paths::components(file);
    let parts = seq![first] + all.skip(base.len() as int);
    paths::lemma_named(parts);
}

/// An import comes off exactly where something can be shared, the walk did not fail, and every file
/// that it came across has a name.
pub proof fn law_import_comes_off(given: Seq<u8>, path: Seq<u8>, entries: Seq<WalkView>)
    ensures
        sources_of(given, path, entries) is Ok <==> shared_component(given, path) is Some && (
        forall|i: int|
            0 <= i < entries.len() ==> (#[trigger] entries[i] matches WalkView::File(file)
                ==> file_name(
                paths::components(path),
                shared_component(given, path).unwrap(),
                file,
            ) is Ok) && !(entries[i] is Failed)),
{
    if shared_component(given, path) is Some {
        lemma_sources_ok(
            paths::components(path),
            shared_component(given, path).unwrap(),
            entries,
        );
    }
}

proof fn lemma_sources_ok(base: Seq<ComponentView>, first: ComponentView, entries: Seq<WalkView>)
    ensures
        sources_below(base, first, entries) is Ok <==> forall|i: int|
            0 <= i < entries.len() ==> (#[trigger] entries[i] matches WalkView::File(file)
                ==> file_name(base, first, file) is Ok) && !(entries[i] is Failed),
    decreases entries.len(),
{
    if entries.len() > 0 {
        let front = entries.drop_last();
        lemma_sources_ok(base, first, front);
        assert(forall|i: int| 0 <= i < front.len() ==> front[i] == entries[i]);
        assert(entries[entries.len() - 1] == entries.last());
        if sources_below(base, first, front) is Ok {
            assert forall|i: int| 0 <= i < front.len() implies (
                #[trigger] entries[i] matches WalkView::File(file) ==> file_name(base, first, file)
                    is Ok) && !(entries[i] is Failed) by {
                assert(front[i] == entries[i]);
            }
        } else {
            let i = choose|i: int|
                0 <= i < front.len() && !((#[trigger] front[i] matches WalkView::File(file)
                    ==> file_name(base, first, file) is Ok) && !(front[i] is Failed));
            assert(entries[i] == front[i]);
        }
    }
}

/// The first fault decides: what failed in the walk, or why a file has no name.
pub proof fn law_first_fault_decides(
    given: Seq<u8>,
    path: Seq<u8>,
    entries: Seq<WalkView>,
    at: int,
)
    requires
        0 <= at < entries.len(),
        sources_of(given, path, entries.take(at)) is Ok,
    ensures
        entries[at] matches WalkView::Failed(cause) ==> sources_of(given, path, entries) == Err::<
            Seq<SourceView>,
            ImportErrorView,
        >(ImportErrorView::Walk(cause)),
        entries[at] matches WalkView::File(file) ==> (file_name(
            paths::components(path),
            shared_component(given, path).unwrap(),
            file,
        ) matches Err(e) ==> sources_of(given, path, entries) == Err::<
            Seq<SourceView>,
            ImportErrorView,
        >(e)),
{
    let base = paths::components(path);
    let first = shared_component(given, path).unwrap();
    assert(entries.take(at + 1).drop_last() =~= entries.take(at));
    assert(entries.take(at + 1).last() == entries[at]);
    if sources_below(base, first, entries.take(at + 1)) is Err {
        lemma_source_error_stays(base, first, entries, at + 1);
    }
}

// ---------------------------------------------------------------------------------------
// What holds of the import of one file
// ---------------------------------------------------------------------------------------

/// The import of a file after a run of steps.
pub open spec fn item_after(item: ImportItemView, events: Seq<ImportEvent>) -> ImportItemView
    decreases events.len(),
{
    if events.len() == 0 {
        item
    } else {
        item_after(item, events.drop_last()).after(events.last())
    }
}

/// A file that is imported has the size that was told last, and keeps its name.
pub proof fn law_import_keeps_last_size(
    item: ImportItemView,
    events: Seq<ImportEvent>,
    at: int,
    size: u64,
)
    requires
        0 <= at < events.len(),
        events[at] == ImportEvent::Size(size),
        forall|i: int| at < i < events.len() ==> !((#[trigger] events[i]) is Size),
    ensures
        item_after(item, events).action(ImportEvent::Done) matches ImportActionView::Finish {
            size: reported,
            ..
        } && reported == size,
        item_after(item, events).size == size,
        item_after(item, events).name == item.name,
    decreases events.len(),
{
    let front = events.drop_last();
    assert(forall|i: int| 0 <= i < front.len() ==> front[i] == events[i]);
    lemma_import_keeps_name(item, front);
    if at < events.len() - 1 {
        law_import_keeps_last_size(item, front, at, size);
        assert(!(events[events.len() - 1] is Size));
    }
}

proof fn lemma_import_keeps_name(item: ImportItemView, events: Seq<ImportEvent>)
    ensures
        item_after(item, events).name == item.name,
    decreases events.len(),
{
    if events.len() > 0 {
        lemma_import_keeps_name(item, events.drop_last());
    }
}

/// A file has a bar exactly where it was told to be larger than eight mebibytes, and a bar that is
/// there is cleared at the end. Without one nothing is moved.
pub proof fn law_large_files_have_a_bar(name: Seq<char>, events: Seq<ImportEvent>, offset: u64)
    ensures
        ({
            let item = item_after(ImportItemView { name, size: 0, bar: false }, events);
            &&& item.bar <==> exists|i: int|
                0 <= i < events.len() && (#[trigger] events[i] matches ImportEvent::Size(n) && n
                    > 8 * 1024 * 1024)
            &&& item.action(ImportEvent::Done) matches ImportActionView::Finish { clear, .. }
                && clear == item.bar
            &&& item.action(ImportEvent::CopyProgress(offset)) == if item.bar {
                ImportActionView::Move { position: offset }
            } else {
                ImportActionView::Nothing
            }
            &&& item.action(ImportEvent::OutboardProgress(offset)) == item.action(
                ImportEvent::CopyProgress(offset),
            )
        }),
    decreases events.len(),
{
    if events.len() > 0 {
        let front = events.drop_last();
        law_large_files_have_a_bar(name, front, offset);
        assert(forall|i: int| 0 <= i < front.len() ==> front[i] == events[i]);
        assert(events[events.len() - 1] == events.last());
        let item = item_after(ImportItemView { name, size: 0, bar: false }, front);
        if item.bar {
            let i = choose|i: int|
                0 <= i < front.len() && (#[trigger] front[i] matches ImportEvent::Size(n) && n > 8
                    * 1024 * 1024);
            assert(events[i] == front[i]);
        }
        if exists|i: int|
            0 <= i < events.len() && (#[trigger] events[i] matches ImportEvent::Size(n) && n > 8
                * 1024 * 1024) {
            let i = choose|i: int|
                0 <= i < events.len() && (#[trigger] events[i] matches ImportEvent::Size(n) && n
                    > 8 * 1024 * 1024);
            if i < front.len() {
                assert(front[i] == events[i]);
            }
        }
    }
}

/// An error fails the import and is told with the name of the file. So does an end before the file
/// is done.
pub proof fn law_import_fails(item: ImportItemView, cause: String)
    ensures
        item.action(ImportEvent::Error(cause)) matches ImportActionView::Fail { clear, message }
            && clear == item.bar && message == "error importing "@ + item.name + ": "@ + cause@,
        item.action(ImportEvent::Ended) is Fail,
        item.action(ImportEvent::Done) is Finish,
{
}

/// There is a message for all files exactly where there is more than one, and it tells how many.
pub proof fn law_overall_message(files: nat)
    ensures
        files <= 1 ==> overall_message(files) is None,
        files > 1 ==> overall_message(files) == Some(
            "importing "@ + text::decimal(files) + " files"@,
        ),
{
}

/// The bar of a large file opens with its size once that is told, and starts again once the copy is
/// done; a small file has none.
pub proof fn law_import_bar(item: ImportItemView, size: u64)
    ensures
        size > 8 * 1024 * 1024 ==> item.action(ImportEvent::Size(size))
            == (ImportActionView::Open { message: "copying "@ + item.name, length: size }),
        size <= 8 * 1024 * 1024 ==> item.action(ImportEvent::Size(size)) is Nothing,
        item.bar ==> item.action(ImportEvent::CopyDone) == (ImportActionView::Restart {
            message: "computing outboard "@ + item.name,
        }),
        !item.bar ==> item.action(ImportEvent::CopyDone) is Nothing,
{
}

// ---------------------------------------------------------------------------------------
// What is looked at
// ---------------------------------------------------------------------------------------

/// Everything that the walk came across is looked at, one by one: a file as a file, whatever it is
/// called.
pub proof fn law_walk_views(v: Seq<WalkEntry>, i: int)
    ensures
        walk_views(v).len() == v.len(),
        0 <= i < v.len() ==> {
            &&& v[i] matches WalkEntry::File(path) ==> walk_views(v)[i] == WalkView::File(path@)
            &&& v[i] is Other ==> walk_views(v)[i] is Other
            &&& v[i] matches WalkEntry::Failed(cause) ==> walk_views(v)[i] == WalkView::Failed(
                cause@,
            )
        },
{
}

/// Sources, files and entries are looked at one by one, each with all that it holds: none is left
/// out, added or moved.
pub proof fn law_file_views(
    s: Seq<Source>,
    f: Seq<ImportedFile>,
    e: Seq<CollectionEntry>,
    i: int,
)
    ensures
        source_views(s).len() == s.len(),
        file_views(f).len() == f.len(),
        file_sizes(f).len() == f.len(),
        entry_views(e).len() == e.len(),
        0 <= i < s.len() ==> source_views(s)[i].name == s[i].name@ && source_views(s)[i].path
            == s[i].path@,
        0 <= i < f.len() ==> file_views(f)[i].name == f[i].name@ && file_views(f)[i].hash
            == f[i].hash@ && file_views(f)[i].size == f[i].size && file_sizes(f)[i] == f[i].size,
        0 <= i < e.len() ==> entry_views(e)[i].name == e[i].name@ && entry_views(e)[i].hash
            == e[i].hash@,
{
}

/// A plan is looked at as what it is: the sources, or the error.
pub proof fn law_sources_result(v: Vec<Source>, e: ImportError)
    ensures
        sources_result(Ok(v)) == Ok::<Seq<SourceView>, ImportErrorView>(source_views(v@)),
        sources_result(Err(e)) == Err::<Seq<SourceView>, ImportErrorView>(e@),
        e is NoParent <==> e@ is NoParent,
        e is Prefix <==> e@ is Prefix,
        e matches ImportError::Walk(cause) ==> e@ == ImportErrorView::Walk(cause@),
        e matches ImportError::Name(n) ==> e@ == ImportErrorView::Name(n@),
{
}

/// What is to be done about a file is looked at with all that it says.
pub proof fn law_import_action_view(a: ImportAction, item: ImportItem)
    ensures
        a is Nothing ==> a@ is Nothing,
        a matches ImportAction::Open { message, length } ==> a@ == (ImportActionView::Open {
            message: message@,
            length,
        }),
        a matches ImportAction::Move { position } ==> a@ == (ImportActionView::Move { position }),
        a matches ImportAction::Restart { message } ==> a@ == (ImportActionView::Restart {
            message: message@,
        }),
        a matches ImportAction::Finish { clear, size } ==> a@ == (ImportActionView::Finish {
            clear,
            size,
        }),
        a matches ImportAction::Fail { clear, message } ==> a@ == (ImportActionView::Fail {
            clear,
            message: message@,
        }),
        item@.name == item.name@,
        item@.size == item.size,
        item@.bar == item.bar,
{
}

/// What failed in the walk is told as it is, and why a file has no name is told as for any path.
pub proof fn law_import_error_text(cause: Seq<char>, e: paths::PathErrorView)
    ensures
        import_error_text(ImportErrorView::Walk(cause)) == cause,
        import_error_text(ImportErrorView::Name(e)) == paths::path_error_text(e),
        import_error_text(ImportErrorView::NoParent) == "context get parent"@,
        import_error_text(ImportErrorView::Prefix) == "prefix not found"@,
{
}

}
