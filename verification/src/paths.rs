//! Paths as the file system gives them: byte strings with `/` between their components.
use vstd::prelude::*;
use vstd::utf8::*;
use crate::outside;
use crate::text;

verus! {

broadcast use vstd::seq::group_seq_axioms;

/// One component of a path.
#[derive(Debug)]
pub enum PathComponent {
    /// The root, a leading `/`.
    RootDir,
    /// The current directory, `.`.
    CurDir,
    /// The directory above, `..`.
    ParentDir,
    /// A name.
    Normal(Vec<u8>),
}

/// What a [`PathComponent`] holds.
pub enum ComponentView {
    /// The root, a leading `/`.
    RootDir,
    /// The current directory, `.`.
    CurDir,
    /// The directory above, `..`.
    ParentDir,
    /// A name.
    Normal(Seq<u8>),
}

impl View for PathComponent {
    type V = ComponentView;

    open spec fn view(&self) -> ComponentView {
        match self {
            PathComponent::RootDir => ComponentView::RootDir,
            PathComponent::CurDir => ComponentView::CurDir,
            PathComponent::ParentDir => ComponentView::ParentDir,
            PathComponent::Normal(name) => ComponentView::Normal(name@),
        }
    }
}

/// The views of a sequence of components.
pub open spec fn component_views(v: Seq<PathComponent>) -> Seq<ComponentView> {
    v.map_values(|c: PathComponent| c@)
}

/// The component that a piece between two separators writes.
pub open spec fn component(piece: Seq<u8>) -> ComponentView {
    if piece == seq![46u8] {
        ComponentView::CurDir
    } else if piece == seq![46u8, 46u8] {
        ComponentView::ParentDir
    } else {
        ComponentView::Normal(piece)
    }
}

/// The components of the pieces that are not empty.
pub open spec fn piece_components(pieces: Seq<Seq<u8>>) -> Seq<ComponentView>
    decreases pieces.len(),
{
    if pieces.len() == 0 {
        Seq::empty()
    } else if pieces.last().len() == 0 {
        piece_components(pieces.drop_last())
    } else {
        piece_components(pieces.drop_last()).push(component(pieces.last()))
    }
}

/// Whether the path starts at the root.
pub open spec fn has_root(path: Seq<u8>) -> bool {
    path.len() > 0 && path[0] == 47
}

/// Every component that the path writes, each `.` among them. Repeated and trailing separators
/// write nothing.
pub open spec fn written_components(path: Seq<u8>) -> Seq<ComponentView> {
    let names = piece_components(text::split(path, 47u8));
    if has_root(path) {
        seq![ComponentView::RootDir] + names
    } else {
        names
    }
}

/// The components without those that are `.`, but for one that stands first.
pub open spec fn without_dots(all: Seq<ComponentView>) -> Seq<ComponentView>
    decreases all.len(),
{
    if all.len() == 0 {
        Seq::empty()
    } else if all.len() > 1 && all.last() is CurDir {
        without_dots(all.drop_last())
    } else {
        without_dots(all.drop_last()).push(all.last())
    }
}

/// The components by which paths are compared: a `.` counts only where the path starts with it.
pub open spec fn components(path: Seq<u8>) -> Seq<ComponentView> {
    without_dots(written_components(path))
}

/// A copy of the bytes.
pub fn copy_bytes(b: &[u8]) -> (r: Vec<u8>)
    ensures
        r@ == b@,
{
    let mut r: Vec<u8> = Vec::new();
    for i in 0..b.len()
        invariant
            r@ == b@.take(i as int),
    {
        r.push(b[i]);
        assert(b@.take(i + 1) =~= b@.take(i as int).push(b@[i as int]));
    }
    assert(b@.take(b@.len() as int) =~= b@);
    r
}

fn read_component(piece: &[u8]) -> (c: PathComponent)
    ensures
        c@ == component(piece@),
{
    if piece.len() == 1 && piece[0] == 46 {
        assert(piece@ =~= seq![46u8]);
        PathComponent::CurDir
    } else if piece.len() == 2 && piece[0] == 46 && piece[1] == 46 {
        assert(piece@ =~= seq![46u8, 46u8]);
        PathComponent::ParentDir
    } else {
        PathComponent::Normal(copy_bytes(piece))
    }
}

/// A copy of the component.
pub fn copy_component(c: &PathComponent) -> (r: PathComponent)
    ensures
        r@ == c@,
{
    match c {
        PathComponent::RootDir => PathComponent::RootDir,
        PathComponent::CurDir => PathComponent::CurDir,
        PathComponent::ParentDir => PathComponent::ParentDir,
        PathComponent::Normal(name) => PathComponent::Normal(copy_bytes(name.as_slice())),
    }
}

/// Every component that a path writes.
pub fn read_written_components(path: &[u8]) -> (r: Vec<PathComponent>)
    ensures
        component_views(r@) == written_components(path@),
{
    let mut r: Vec<PathComponent> = Vec::new();
    let pieces = text::split_bytes(path, 47);
    let ghost all = text::views(pieces@);
    let ghost mut root = Seq::<ComponentView>::empty();
    if path.len() > 0 && path[0] == 47 {
        r.push(PathComponent::RootDir);
        proof {
            root = seq![ComponentView::RootDir];
        }
    }
    assert(component_views(r@) =~= root + piece_components(all.take(0)));
    for i in 0..pieces.len()
        invariant
            all == text::views(pieces@),
            component_views(r@) == root + piece_components(all.take(i as int)),
    {
        let ghost before = r@;
        assert(all.take(i + 1).drop_last() =~= all.take(i as int));
        assert(all.take(i + 1).last() == pieces@[i as int]@);
        if pieces[i].len() > 0 {
            let c = read_component(pieces[i].as_slice());
            let ghost v = c@;
            r.push(c);
            assert(component_views(r@) =~= component_views(before).push(v));
            assert((root + piece_components(all.take(i as int))).push(v) =~= root
                + piece_components(all.take(i as int)).push(v));
        }
    }
    assert(all.take(all.len() as int) =~= all);
    assert(root + piece_components(all) =~= written_components(path@));
    r
}

/// The components by which a path is compared.
pub fn read_components(path: &[u8]) -> (r: Vec<PathComponent>)
    ensures
        component_views(r@) == components(path@),
{
    let all = read_written_components(path);
    let ghost views = component_views(all@);
    let mut r: Vec<PathComponent> = Vec::new();
    assert(component_views(r@) =~= without_dots(views.take(0)));
    for i in 0..all.len()
        invariant
            views == component_views(all@),
            component_views(r@) == without_dots(views.take(i as int)),
    {
        let ghost before = r@;
        assert(views.take(i + 1).drop_last() =~= views.take(i as int));
        assert(views.take(i + 1).last() == all@[i as int]@);
        let dot = match all[i] {
            PathComponent::CurDir => i > 0,
            _ => false,
        };
        if !dot {
            r.push(copy_component(&all[i]));
            assert(component_views(r@) =~= component_views(before).push(all@[i as int]@));
        }
    }
    assert(views.take(views.len() as int) =~= views);
    r
}

// ---------------------------------------------------------------------------------------
// Names of files inside a collection
// ---------------------------------------------------------------------------------------

/// Why a path has no name inside a collection.
#[derive(Debug)]
pub enum PathError {
    /// A component is not text.
    InvalidCharacter,
    /// A component holds a separator of some system.
    InvalidName(String),
    /// The path starts at the root.
    RootDir,
    /// A component is `.`.
    CurDir,
    /// A component is `..`.
    ParentDir,
    /// A part of a name holds the separator.
    Separator,
}

/// What a [`PathError`] holds.
pub enum PathErrorView {
    /// A component is not text.
    InvalidCharacter,
    /// A component holds a separator of some system.
    InvalidName(Seq<char>),
    /// The path starts at the root.
    RootDir,
    /// A component is `.`.
    CurDir,
    /// A component is `..`.
    ParentDir,
    /// A part of a name holds the separator.
    Separator,
}

impl View for PathError {
    type V = PathErrorView;

    open spec fn view(&self) -> PathErrorView {
        match self {
            PathError::InvalidCharacter => PathErrorView::InvalidCharacter,
            PathError::InvalidName(name) => PathErrorView::InvalidName(name@),
            PathError::RootDir => PathErrorView::RootDir,
            PathError::CurDir => PathErrorView::CurDir,
            PathError::ParentDir => PathErrorView::ParentDir,
            PathError::Separator => PathErrorView::Separator,
        }
    }
}

/// The message of an error.
pub open spec fn path_error_text(e: PathErrorView) -> Seq<char> {
    match e {
        PathErrorView::InvalidCharacter => "invalid character in path"@,
        PathErrorView::InvalidName(name) => "invalid path component "@ + outside::debug_text(name),
        PathErrorView::RootDir => "invalid path component RootDir"@,
        PathErrorView::CurDir => "invalid path component CurDir"@,
        PathErrorView::ParentDir => "invalid path component ParentDir"@,
        PathErrorView::Separator =>
            "path components must not contain the only correct path separator, /"@,
    }
}

impl PathError {
    /// The message of the error.
    pub fn message(&self) -> (s: String)
        ensures
            s@ == path_error_text(self@),
    {
        match self {
            PathError::InvalidCharacter => "invalid character in path".to_string(),
            PathError::InvalidName(name) => {
                let mut s = "invalid path component ".to_string();
                s.append(outside::debug_string(name.as_str()).as_str());
                s
            },
            PathError::RootDir => "invalid path component RootDir".to_string(),
            PathError::CurDir => "invalid path component CurDir".to_string(),
            PathError::ParentDir => "invalid path component ParentDir".to_string(),
            PathError::Separator =>
                "path components must not contain the only correct path separator, /".to_string(),
        }
    }
}

/// Why a component cannot be part of a name, if it cannot.
pub open spec fn component_error(c: ComponentView, must_be_relative: bool) -> Option<
    PathErrorView,
> {
    match c {
        ComponentView::Normal(name) => if !valid_utf8(name) {
            Some(PathErrorView::InvalidCharacter)
        } else if decode_utf8(name).contains('/') || decode_utf8(name).contains('\\') {
            Some(PathErrorView::InvalidName(decode_utf8(name)))
        } else {
            None
        },
        ComponentView::RootDir => if must_be_relative {
            Some(PathErrorView::RootDir)
        } else {
            None
        },
        ComponentView::CurDir => Some(PathErrorView::CurDir),
        ComponentView::ParentDir => Some(PathErrorView::ParentDir),
    }
}

/// The error of the first component that has one.
pub open spec fn first_error(all: Seq<ComponentView>, must_be_relative: bool) -> Option<
    PathErrorView,
>
    decreases all.len(),
{
    if all.len() == 0 {
        None
    } else {
        match first_error(all.drop_last(), must_be_relative) {
            Some(e) => Some(e),
            None => component_error(all.last(), must_be_relative),
        }
    }
}

/// The texts of the components that are names.
pub open spec fn names(all: Seq<ComponentView>) -> Seq<Seq<char>>
    decreases all.len(),
{
    if all.len() == 0 {
        Seq::empty()
    } else {
        match all.last() {
            ComponentView::Normal(name) => names(all.drop_last()).push(decode_utf8(name)),
            _ => names(all.drop_last()),
        }
    }
}

/// One `/` for each component that is the root.
pub open spec fn roots(all: Seq<ComponentView>) -> Seq<char>
    decreases all.len(),
{
    if all.len() == 0 {
        Seq::empty()
    } else if all.last() is RootDir {
        roots(all.drop_last()).push('/')
    } else {
        roots(all.drop_last())
    }
}

/// The text of components without an error: the root, then the names with `/` between them.
pub open spec fn canonical_text(all: Seq<ComponentView>) -> Seq<char> {
    roots(all) + text::join(names(all), '/')
}

/// What [`components_to_string`] gives.
pub open spec fn canonical(all: Seq<ComponentView>, must_be_relative: bool) -> Result<
    Seq<char>,
    PathErrorView,
> {
    match first_error(all, must_be_relative) {
        Some(e) => Err(e),
        None => Ok(canonical_text(all)),
    }
}

/// Components without an error, of which none is the root, are all names.
proof fn lemma_relative_names(all: Seq<ComponentView>)
    requires
        first_error(all, true) is None,
    ensures
        names(all).len() == all.len(),
    decreases all.len(),
{
    if all.len() > 0 {
        lemma_relative_names(all.drop_last());
    }
}

/// The text of several names has a separator in it.
pub proof fn lemma_several_names(all: Seq<ComponentView>)
    requires
        canonical(all, true) is Ok,
        all.len() >= 2,
    ensures
        canonical(all, true)->Ok_0.contains('/'),
{
    lemma_relative_names(all);
    let parts = names(all);
    let front = text::join(parts.drop_last(), '/');
    let whole = canonical_text(all);
    assert(whole[(roots(all).len() + front.len()) as int] == '/');
}

/// A result of a string or an error, by their views.
pub open spec fn string_result(r: Result<String, PathError>) -> Result<Seq<char>, PathErrorView> {
    match r {
        Ok(s) => Ok(s@),
        Err(e) => Err(e@),
    }
}

/// A component's error stays where more components follow.
proof fn lemma_first_error_stays(all: Seq<ComponentView>, i: int, must_be_relative: bool)
    requires
        0 <= i <= all.len(),
        first_error(all.take(i), must_be_relative) is Some,
    ensures
        first_error(all, must_be_relative) == first_error(all.take(i), must_be_relative),
    decreases all.len() - i,
{
    if i < all.len() {
        assert(all.take(i + 1).drop_last() =~= all.take(i));
        lemma_first_error_stays(all, i + 1, must_be_relative);
    } else {
        assert(all.take(i) =~= all);
    }
}

fn check_component(c: &PathComponent, must_be_relative: bool) -> (r: Result<
    Option<String>,
    PathError,
>)
    ensures
        match r {
            Ok(name) => {
                &&& component_error(c@, must_be_relative) is None
                &&& name is Some <==> c@ is Normal
                &&& name matches Some(s) ==> s@ == decode_utf8(c@->Normal_0)
            },
            Err(e) => component_error(c@, must_be_relative) == Some(e@),
        },
{
    match c {
        PathComponent::Normal(name) => match outside::utf8_string(name.as_slice()) {
            None => Err(PathError::InvalidCharacter),
            Some(s) => {
                let chars = text::chars_of(s.as_str());
                if text::has_char(chars.as_slice(), '/') || text::has_char(
                    chars.as_slice(),
                    '\\',
                ) {
                    Err(PathError::InvalidName(s))
                } else {
                    Ok(Some(s))
                }
            },
        },
        PathComponent::RootDir => if must_be_relative {
            Err(PathError::RootDir)
        } else {
            Ok(None)
        },
        PathComponent::CurDir => Err(PathError::CurDir),
        PathComponent::ParentDir => Err(PathError::ParentDir),
    }
}

/// The components as a string with `/` between them.
pub fn components_to_string(all: &[PathComponent], must_be_relative: bool) -> (r: Result<
    String,
    PathError,
>)
    ensures
        string_result(r) == canonical(component_views(all@), must_be_relative),
{
    let ghost views = component_views(all@);
    let mut path_str = String::new();
    let mut parts: Vec<String> = Vec::new();
    assert(text::texts(parts@) =~= names(views.take(0)));
    for i in 0..all.len()
        invariant
            views == component_views(all@),
            first_error(views.take(i as int), must_be_relative) is None,
            path_str@ == roots(views.take(i as int)),
            text::texts(parts@) == names(views.take(i as int)),
    {
        let ghost before = parts@;
        assert(views.take(i + 1).drop_last() =~= views.take(i as int));
        assert(views.take(i + 1).last() == all@[i as int]@);
        match check_component(&all[i], must_be_relative) {
            Err(e) => {
                proof {
                    lemma_first_error_stays(views, i + 1, must_be_relative);
                }
                return Err(e);
            },
            Ok(Some(s)) => {
                let ghost name = s@;
                parts.push(s);
                assert(text::texts(parts@) =~= text::texts(before).push(name));
            },
            Ok(None) => {
                path_str.push('/');
            },
        }
    }
    assert(views.take(views.len() as int) =~= views);
    path_str.append(text::join_strings(parts.as_slice(), '/').as_str());
    Ok(path_str)
}

/// Writes a canonical path as a string with `/` between its components.
///
/// It fails on a path that is not canonical, one that holds `.` or `..` anywhere, on a component
/// that is not text or holds the separator of Unix or Windows, and, where `must_be_relative`
/// holds, on a path from the root. The first component at fault decides the error.
pub fn canonicalized_path_to_string(path: &[u8], must_be_relative: bool) -> (r: Result<
    String,
    PathError,
>)
    ensures
        string_result(r) == canonical(written_components(path@), must_be_relative),
{
    let all = read_written_components(path);
    components_to_string(all.as_slice(), must_be_relative)
}

// ---------------------------------------------------------------------------------------
// Joining paths
// ---------------------------------------------------------------------------------------

/// The path `part` seen from `base`: a path from the root stands for itself.
pub open spec fn joined(base: Seq<u8>, part: Seq<u8>) -> Seq<u8> {
    if has_root(part) {
        part
    } else if base.len() > 0 && base.last() != 47 {
        base.push(47) + part
    } else {
        base + part
    }
}

/// The path `part` seen from `base`.
pub fn join_path(base: &[u8], part: &[u8]) -> (r: Vec<u8>)
    ensures
        r@ == joined(base@, part@),
{
    let mut r: Vec<u8> = Vec::new();
    if !(part.len() > 0 && part[0] == 47) {
        r = copy_bytes(base);
        if base.len() > 0 && base[base.len() - 1] != 47 {
            r.push(47);
        }
    }
    let mut rest = copy_bytes(part);
    r.append(&mut rest);
    assert(r@ =~= joined(base@, part@));
    r
}

/// The texts pushed onto `root` one after another.
pub open spec fn joined_all(root: Seq<u8>, parts: Seq<Seq<char>>) -> Seq<u8>
    decreases parts.len(),
{
    if parts.len() == 0 {
        root
    } else {
        joined(joined_all(root, parts.drop_last()), encode_utf8(parts.last()))
    }
}

/// Where the file of the given name goes below `root`.
pub open spec fn export_path(root: Seq<u8>, name: Seq<char>) -> Seq<u8> {
    joined_all(root, text::split(name, '/'))
}

/// Accepts a part of a name unless it holds the separator.
pub fn validate_path_component(component: &str) -> (r: Result<(), PathError>)
    ensures
        r is Ok <==> !component@.contains('/'),
        r matches Err(e) ==> e@ == PathErrorView::Separator,
{
    let chars = text::chars_of(component);
    if text::has_char(chars.as_slice(), '/') {
        Err(PathError::Separator)
    } else {
        Ok(())
    }
}

/// Where the file of the given name goes below `root`. It never fails: the parts between the
/// separators hold none.
pub fn get_export_path(root: &[u8], name: &str) -> (r: Result<Vec<u8>, PathError>)
    ensures
        r matches Ok(path) && path@ == export_path(root@, name@),
{
    let chars = text::chars_of(name);
    let parts = text::split_chars(chars.as_slice(), '/');
    let ghost all = text::views(parts@);
    let mut path = copy_bytes(root);
    for i in 0..parts.len()
        invariant
            all == text::views(parts@),
            all == text::split(name@, '/'),
            path@ == joined_all(root@, all.take(i as int)),
    {
        proof {
            text::lemma_split_free(name@, '/');
            assert(all[i as int] == parts@[i as int]@);
            assert(all.take(i + 1).drop_last() =~= all.take(i as int));
        }
        let part = text::string_of(parts[i].as_slice());
        match validate_path_component(part.as_str()) {
            Err(e) => {
                return Err(e);
            },
            Ok(()) => {},
        }
        path = join_path(path.as_slice(), part.as_str().as_bytes());
    }
    assert(all.take(all.len() as int) =~= all);
    Ok(path)
}

/// A name as a component: not empty, without a separator, neither `.` nor `..`.
pub open spec fn is_name(piece: Seq<u8>) -> bool {
    piece.len() > 0 && !piece.contains(47) && component(piece) == ComponentView::Normal(piece)
}

/// Joining a name adds one component.
proof fn lemma_joined_name(base: Seq<u8>, name: Seq<u8>)
    requires
        is_name(name),
    ensures
        written_components(joined(base, name)) == written_components(base).push(
            ComponentView::Normal(name),
        ),
{
    assert(name[0] != 47) by {
        assert(name.contains(name[0]));
    }
    text::lemma_split_whole(name, 47u8);
    let whole = joined(base, name);
    let c = ComponentView::Normal(name);
    if base.len() == 0 {
        reveal_with_fuel(piece_components, 2);
        assert(whole =~= name);
        assert(text::split(base, 47u8) =~= seq![Seq::<u8>::empty()]);
        assert(seq![Seq::<u8>::empty()].drop_last() =~= Seq::<Seq<u8>>::empty());
        assert(seq![name].drop_last() =~= Seq::<Seq<u8>>::empty());
        assert(piece_components(text::split(base, 47u8)) =~= Seq::<ComponentView>::empty());
        assert(piece_components(seq![name]) =~= seq![c]);
    } else {
        let front = if base.last() == 47 {
            base.drop_last()
        } else {
            base
        };
        assert(whole =~= front.push(47) + name);
        text::lemma_split_concat(front, name, 47u8);
        let pieces = text::split(front, 47u8);
        assert(text::split(whole, 47u8) =~= pieces.push(name));
        assert(pieces.push(name).drop_last() =~= pieces);
        if base.last() == 47 {
            assert(text::split(base, 47u8) =~= pieces.push(Seq::<u8>::empty()));
            assert(pieces.push(Seq::<u8>::empty()).drop_last() =~= pieces);
        }
        assert(whole[0] == base[0]);
        assert(piece_components(text::split(whole, 47u8)) == piece_components(
            text::split(base, 47u8),
        ).push(c));
        assert(written_components(whole) =~= written_components(base).push(c));
    }
}

/// The components made of pieces without a separator are names, `.` and `..`.
proof fn lemma_piece_components(pieces: Seq<Seq<u8>>)
    requires
        forall|i: int| 0 <= i < pieces.len() ==> !(#[trigger] pieces[i]).contains(47),
    ensures
        forall|i: int|
            0 <= i < piece_components(pieces).len() ==> !(#[trigger] piece_components(
                pieces,
            )[i] is RootDir),
        forall|i: int|
            0 <= i < piece_components(pieces).len() ==> (#[trigger] piece_components(
                pieces,
            )[i] matches ComponentView::Normal(name) ==> is_name(name)),
    decreases pieces.len(),
{
    if pieces.len() > 0 {
        let front = pieces.drop_last();
        assert(forall|i: int| 0 <= i < front.len() ==> front[i] == pieces[i]);
        lemma_piece_components(front);
        assert(!pieces.last().contains(47));
    }
}

/// Components without an error are all names, where no root is allowed.
proof fn lemma_no_error(all: Seq<ComponentView>)
    requires
        first_error(all, true) is None,
    ensures
        forall|i: int|
            0 <= i < all.len() ==> (#[trigger] all[i]) is Normal && component_error(all[i], true)
                is None,
        roots(all) == Seq::<char>::empty(),
        names(all).len() == all.len(),
        forall|i: int|
            0 <= i < all.len() ==> #[trigger] names(all)[i] == decode_utf8(all[i]->Normal_0),
        without_dots(all) == all,
    decreases all.len(),
{
    if all.len() > 0 {
        lemma_no_error(all.drop_last());
        assert(component_error(all.last(), true) is None);
        assert(all.drop_last().push(all.last()) =~= all);
        assert forall|i: int| 0 <= i < all.len() implies (#[trigger] all[i]) is Normal
            && component_error(all[i], true) is None by {
            if i < all.len() - 1 {
                assert(all.drop_last()[i] == all[i]);
            }
        }
        assert forall|i: int| 0 <= i < all.len() implies #[trigger] names(all)[i] == decode_utf8(
            all[i]->Normal_0,
        ) by {
            if i < all.len() - 1 {
                assert(all.drop_last()[i] == all[i]);
                assert(names(all)[i] == names(all.drop_last())[i]);
            }
        }
    }
}

/// Joining names one after another adds a component for each.
proof fn lemma_joined_names(root: Seq<u8>, parts: Seq<Seq<char>>, all: Seq<ComponentView>)
    requires
        parts.len() == all.len(),
        forall|i: int|
            0 <= i < all.len() ==> (#[trigger] all[i] matches ComponentView::Normal(name)
                && is_name(name) && name == encode_utf8(parts[i])),
    ensures
        components(joined_all(root, parts)) == components(root) + all,
    decreases parts.len(),
{
    if parts.len() == 0 {
        assert(components(root) + all =~= components(root));
    } else {
        let front = all.drop_last();
        assert(forall|i: int| 0 <= i < front.len() ==> front[i] == all[i]);
        lemma_joined_names(root, parts.drop_last(), front);
        let base = joined_all(root, parts.drop_last());
        let name = encode_utf8(parts.last());
        assert(all[all.len() - 1] == ComponentView::Normal(name));
        lemma_joined_name(base, name);
        let written = written_components(base);
        assert(written.push(all.last()).drop_last() =~= written);
        assert(components(joined_all(root, parts)) =~= components(base).push(all.last()));
        assert(components(root) + front.push(all.last()) =~= (components(root) + front).push(
            all.last(),
        ));
        assert(front.push(all.last()) =~= all);
    }
}

/// A text with the separator in it is encoded with the separator in it.
proof fn lemma_encoded_separator(chars: Seq<char>)
    requires
        chars.contains('/'),
    ensures
        encode_utf8(chars).contains(47),
    decreases chars.len(),
{
    let rest = chars.drop_first();
    let k = choose|k: int| 0 <= k < chars.len() && chars[k] == '/';
    let head = encode_scalar(chars[0] as u32);
    assert(encode_utf8(chars) == head + encode_utf8(rest));
    if k == 0 {
        let one = seq!['/'];
        is_ascii_chars_encode_utf8(one);
        assert(one.drop_first() =~= Seq::<char>::empty());
        assert(encode_utf8(one) =~= encode_scalar('/' as u32) + encode_utf8(one.drop_first()));
        assert(encode_utf8(one)[0] == one[0] as u8);
        assert(head.len() == 1 && head[0] == 47);
        assert(encode_utf8(chars)[0] == 47);
    } else {
        assert(rest[k - 1] == '/');
        lemma_encoded_separator(rest);
        let j = choose|j: int| 0 <= j < encode_utf8(rest).len() && encode_utf8(rest)[j] == 47;
        assert(encode_utf8(chars)[head.len() + j] == 47);
    }
}

/// A name that is text has no separator in its text.
pub proof fn lemma_name_text(name: Seq<u8>)
    requires
        is_name(name),
        valid_utf8(name),
    ensures
        !decode_utf8(name).contains('/'),
{
    decode_utf8_encode_utf8(name);
    if decode_utf8(name).contains('/') {
        lemma_encoded_separator(decode_utf8(name));
    }
}

/// Every name among the components is not empty and holds no separator.
pub open spec fn all_names(all: Seq<ComponentView>) -> bool {
    forall|i: int|
        0 <= i < all.len() ==> (#[trigger] all[i] matches ComponentView::Normal(name) ==> is_name(
            name,
        ))
}

/// Leaving out a `.` leaves the names as they are.
proof fn lemma_without_dots_names(all: Seq<ComponentView>)
    requires
        all_names(all),
    ensures
        all_names(without_dots(all)),
    decreases all.len(),
{
    if all.len() > 0 {
        let front = all.drop_last();
        assert(forall|i: int| 0 <= i < front.len() ==> front[i] == all[i]);
        lemma_without_dots_names(front);
        assert(all[all.len() - 1] == all.last());
    }
}

/// The names among the components of a path are not empty and hold no separator.
pub proof fn lemma_component_names(path: Seq<u8>)
    ensures
        all_names(written_components(path)),
        all_names(components(path)),
{
    let pieces = text::split(path, 47u8);
    text::lemma_split_free(path, 47u8);
    lemma_piece_components(pieces);
    let all = written_components(path);
    assert forall|i: int| 0 <= i < all.len() implies (#[trigger] all[i] matches ComponentView::Normal(
        name,
    ) ==> is_name(name)) by {
        if has_root(path) {
            if i > 0 {
                assert(all[i] == piece_components(pieces)[i - 1]);
            }
        } else {
            assert(all[i] == piece_components(pieces)[i]);
        }
    }
    lemma_without_dots_names(all);
}

/// The empty name leads to the destination itself.
proof fn lemma_export_nothing(root: Seq<u8>)
    ensures
        components(export_path(root, Seq::empty())) == components(root),
{
    let none = Seq::<char>::empty();
    let whole = export_path(root, none);
    assert(text::split(none, '/') =~= seq![none]);
    reveal_with_fuel(joined_all, 2);
    assert(seq![none].drop_last() =~= Seq::<Seq<char>>::empty());
    assert(encode_utf8(none) =~= Seq::<u8>::empty());
    assert(whole == joined(root, Seq::<u8>::empty()));
    if root.len() > 0 && root.last() != 47 {
        assert(whole =~= root.push(47));
        assert(whole.drop_last() =~= root);
        let pieces = text::split(root, 47u8);
        assert(text::split(whole, 47u8) =~= pieces.push(Seq::<u8>::empty()));
        assert(pieces.push(Seq::<u8>::empty()).drop_last() =~= pieces);
        assert(whole[0] == root[0]);
        assert(written_components(whole) =~= written_components(root));
    } else {
        assert(whole =~= root);
    }
}

/// The export path of the name of one or more components.
proof fn lemma_export_some(root: Seq<u8>, all: Seq<ComponentView>)
    requires
        first_error(all, true) is None,
        all.len() > 0,
        all_names(all),
    ensures
        components(export_path(root, canonical_text(all))) == components(root) + all,
{
    lemma_no_error(all);
    let parts = names(all);
    assert(canonical_text(all) =~= text::join(parts, '/'));
    assert forall|i: int| 0 <= i < parts.len() implies !(#[trigger] parts[i]).contains('/') by {
        assert(component_error(all[i], true) is None);
    }
    text::lemma_split_join(parts, '/');
    assert forall|i: int| 0 <= i < all.len() implies (#[trigger] all[i] matches ComponentView::Normal(
        b,
    ) && is_name(b) && b == encode_utf8(parts[i])) by {
        assert(component_error(all[i], true) is None);
        let b = all[i]->Normal_0;
        assert(parts[i] == decode_utf8(b));
        decode_utf8_encode_utf8(b);
    }
    lemma_joined_names(root, parts, all);
}

/// The export path of the name of some components has the components of the destination and then
/// those.
pub proof fn lemma_export_components(root: Seq<u8>, all: Seq<ComponentView>)
    requires
        first_error(all, true) is None,
        all_names(all),
    ensures
        components(export_path(root, canonical_text(all))) == components(root) + all,
{
    lemma_no_error(all);
    if all.len() == 0 {
        lemma_export_nothing(root);
        assert(canonical_text(all) =~= Seq::<char>::empty());
        assert(components(root) + all =~= components(root));
    } else {
        lemma_export_some(root, all);
    }
}

/// A file that is shared under the name of its relative path is written to that same path below
/// the destination: the export path has the components of the destination and then those of the
/// path.
pub proof fn law_export_path_restores(root: Seq<u8>, path: Seq<u8>)
    requires
        canonical(written_components(path), true) is Ok,
    ensures
        components(export_path(root, canonical(written_components(path), true)->Ok_0))
            == components(root) + components(path),
{
    lemma_component_names(path);
    lemma_no_error(written_components(path));
    lemma_export_components(root, written_components(path));
}

/// Whether a component may be part of a name.
pub open spec fn is_accepted(c: ComponentView, must_be_relative: bool) -> bool {
    match c {
        ComponentView::Normal(name) => valid_utf8(name) && !decode_utf8(name).contains('\\'),
        ComponentView::RootDir => !must_be_relative,
        _ => false,
    }
}

/// There is no error exactly where no component has one.
proof fn lemma_first_error(all: Seq<ComponentView>, must_be_relative: bool)
    ensures
        first_error(all, must_be_relative) is None <==> forall|i: int|
            0 <= i < all.len() ==> component_error(#[trigger] all[i], must_be_relative) is None,
    decreases all.len(),
{
    if all.len() > 0 {
        let front = all.drop_last();
        lemma_first_error(front, must_be_relative);
        assert(forall|i: int| 0 <= i < front.len() ==> front[i] == all[i]);
        assert(all[all.len() - 1] == all.last());
        if first_error(front, must_be_relative) is None {
            assert forall|i: int| 0 <= i < all.len() - 1 implies component_error(
                #[trigger] all[i],
                must_be_relative,
            ) is None by {
                assert(component_error(front[i], must_be_relative) is None);
            }
        } else {
            let i = choose|i: int|
                0 <= i < front.len() && !(component_error(#[trigger] front[i], must_be_relative)
                    is None);
            assert(!(component_error(all[i], must_be_relative) is None));
        }
    }
}

/// A path has a name exactly where each of its components is a name in text without the separator
/// of Windows, but for the root where it is allowed. So no path with `.` or `..` in it has one.
pub proof fn law_accepted_paths(path: Seq<u8>, must_be_relative: bool)
    ensures
        canonical(written_components(path), must_be_relative) is Ok <==> forall|i: int|
            0 <= i < written_components(path).len() ==> is_accepted(
                #[trigger] written_components(path)[i],
                must_be_relative,
            ),
{
    let all = written_components(path);
    lemma_component_names(path);
    lemma_first_error(all, must_be_relative);
    assert forall|i: int| 0 <= i < all.len() implies is_accepted(#[trigger] all[i], must_be_relative)
        == (component_error(all[i], must_be_relative) is None) by {
        match all[i] {
            ComponentView::Normal(name) => {
                if valid_utf8(name) {
                    lemma_name_text(name);
                }
            },
            _ => {},
        }
    }
}

/// Two paths that have the same name inside a collection have the same components.
pub proof fn law_name_determines_path(a: Seq<u8>, b: Seq<u8>)
    requires
        canonical(written_components(a), true) is Ok,
        canonical(written_components(b), true) == canonical(written_components(a), true),
    ensures
        components(a) == components(b),
{
    let root = Seq::<u8>::empty();
    law_export_path_restores(root, a);
    law_export_path_restores(root, b);
    assert(components(root) + components(a) == components(root) + components(b));
    assert(components(a) =~= (components(root) + components(a)).skip(
        components(root).len() as int,
    ));
    assert(components(b) =~= (components(root) + components(b)).skip(
        components(root).len() as int,
    ));
}

// ---------------------------------------------------------------------------------------
// Comparing paths
// ---------------------------------------------------------------------------------------

fn same_component(a: &PathComponent, b: &PathComponent) -> (r: bool)
    ensures
        r == (a@ == b@),
{
    match (a, b) {
        (PathComponent::RootDir, PathComponent::RootDir) => true,
        (PathComponent::CurDir, PathComponent::CurDir) => true,
        (PathComponent::ParentDir, PathComponent::ParentDir) => true,
        (PathComponent::Normal(x), PathComponent::Normal(y)) => text::same_bytes(
            x.as_slice(),
            y.as_slice(),
        ),
        _ => false,
    }
}

/// What is left of a path after its first components, where these are `base`.
pub open spec fn after_components(base: Seq<ComponentView>, all: Seq<ComponentView>) -> Option<
    Seq<ComponentView>,
> {
    if base.is_prefix_of(all) {
        Some(all.skip(base.len() as int))
    } else {
        None
    }
}

/// What is left of a path after its first components, where these are `base`.
pub fn strip_components(base: &[PathComponent], all: &[PathComponent]) -> (r: Option<
    Vec<PathComponent>,
>)
    ensures
        r matches Some(rest) ==> after_components(component_views(base@), component_views(all@))
            == Some(component_views(rest@)),
        r is None ==> after_components(component_views(base@), component_views(all@)) is None,
{
    let ghost b = component_views(base@);
    let ghost a = component_views(all@);
    if all.len() < base.len() {
        return None;
    }
    for i in 0..base.len()
        invariant
            base.len() <= all.len(),
            b == component_views(base@),
            a == component_views(all@),
            forall|j: int| 0 <= j < i ==> b[j] == a[j],
    {
        if !same_component(&base[i], &all[i]) {
            assert(b[i as int] == base@[i as int]@);
            assert(a[i as int] == all@[i as int]@);
            assert(a.subrange(0, b.len() as int)[i as int] != b[i as int]);
            return None;
        }
        assert(b[i as int] == base@[i as int]@);
        assert(a[i as int] == all@[i as int]@);
    }
    assert(b =~= a.subrange(0, b.len() as int));
    let mut rest: Vec<PathComponent> = Vec::new();
    for i in base.len()..all.len()
        invariant
            base.len() <= all.len(),
            a == component_views(all@),
            component_views(rest@) == a.subrange(base@.len() as int, i as int),
    {
        let ghost before = rest@;
        rest.push(copy_component(&all[i]));
        assert(component_views(rest@) =~= component_views(before).push(all@[i as int]@));
        assert(a.subrange(base@.len() as int, i + 1) =~= a.subrange(
            base@.len() as int,
            i as int,
        ).push(a[i as int]));
    }
    assert(a.subrange(base@.len() as int, a.len() as int) =~= a.skip(b.len() as int));
    Some(rest)
}

/// Whether two paths have the same components.
pub fn same_path(a: &[u8], b: &[u8]) -> (r: bool)
    ensures
        r == (components(a@) == components(b@)),
{
    let left = read_components(a);
    let right = read_components(b);
    match strip_components(left.as_slice(), right.as_slice()) {
        Some(rest) => {
            proof {
                let x = components(a@);
                let y = components(b@);
                assert(x =~= y.take(x.len() as int));
                if rest@.len() == 0 {
                    assert(component_views(rest@).len() == 0);
                    assert(x =~= y);
                } else {
                    assert(component_views(rest@).len() > 0);
                }
            }
            rest.len() == 0
        },
        None => {
            proof {
                let x = components(a@);
                assert(x.subrange(0, x.len() as int) =~= x);
            }
            false
        },
    }
}

/// The text of the last component, where it is a name.
pub open spec fn last_name(path: Seq<u8>) -> Option<Seq<char>> {
    let all = components(path);
    if all.len() == 0 {
        None
    } else {
        match all.last() {
            ComponentView::Normal(name) => if valid_utf8(name) {
                Some(decode_utf8(name))
            } else {
                None
            },
            _ => None,
        }
    }
}

/// The text of the last component, where it is a name.
pub fn read_last_name(path: &[u8]) -> (r: Option<String>)
    ensures
        r matches Some(s) ==> last_name(path@) == Some(s@),
        r is None ==> last_name(path@) is None,
{
    let all = read_components(path);
    if all.len() == 0 {
        assert(component_views(all@).len() == 0);
        return None;
    }
    assert(component_views(all@).last() == all@.last()@);
    match &all[all.len() - 1] {
        PathComponent::Normal(name) => outside::utf8_string(name.as_slice()),
        _ => None,
    }
}

// ---------------------------------------------------------------------------------------
// The home directory
// ---------------------------------------------------------------------------------------

/// The text without the separators that it starts with.
pub open spec fn without_slashes(s: Seq<char>) -> Seq<char>
    decreases s.len(),
{
    if s.len() > 0 && s[0] == '/' {
        without_slashes(s.skip(1))
    } else {
        s
    }
}

/// The path with a leading `~` replaced by the home directory, where there is one. What follows the
/// `~` lies below the home directory, however many separators stand between them.
pub open spec fn expanded(path: Seq<u8>, home: Option<Seq<char>>) -> Seq<u8> {
    let s = decode_utf8(path);
    if !valid_utf8(path) || home is None {
        path
    } else if s == "~"@ {
        encode_utf8(home.unwrap())
    } else {
        match text::after_prefix(s, "~/"@) {
            Some(rest) => joined(
                encode_utf8(home.unwrap()),
                encode_utf8(without_slashes(rest)),
            ),
            None => path,
        }
    }
}

/// Replaces a leading `~` of a path by the home directory.
pub fn expand_home(path: &[u8], home: Option<&str>) -> (r: Vec<u8>)
    ensures
        r@ == expanded(
            path@,
            match home {
                Some(h) => Some(h@),
                None => None,
            },
        ),
{
    let str_path = match outside::utf8_string(path) {
        Some(s) => s,
        None => {
            return copy_bytes(path);
        },
    };
    let home = match home {
        Some(h) => h,
        None => {
            return copy_bytes(path);
        },
    };
    let chars = text::chars_of(str_path.as_str());
    let prefix = text::chars_of("~/");
    if text::same_text(str_path.as_str(), "~") {
        copy_bytes(home.as_bytes())
    } else if text::has_prefix(chars.as_slice(), prefix.as_slice()) {
        let mut from: usize = prefix.len();
        while from < chars.len() && chars[from] == '/'
            invariant
                prefix.len() <= from <= chars.len(),
                without_slashes(chars@.skip(prefix@.len() as int)) == without_slashes(
                    chars@.skip(from as int),
                ),
            decreases chars.len() - from,
        {
            assert(chars@.skip(from as int)[0] == chars@[from as int]);
            assert(chars@.skip(from as int).skip(1) =~= chars@.skip(from + 1));
            from = from + 1;
        }
        assert(from < chars@.len() ==> chars@.skip(from as int)[0] == chars@[from as int]);
        let rest = text::slice_chars(chars.as_slice(), from, chars.len());
        assert(rest@ =~= chars@.skip(from as int));
        let rest = text::string_of(rest.as_slice());
        join_path(home.as_bytes(), rest.as_str().as_bytes())
    } else {
        copy_bytes(path)
    }
}

/// The components of two runs of pieces are those of the first and then those of the second.
proof fn lemma_piece_components_concat(a: Seq<Seq<u8>>, b: Seq<Seq<u8>>)
    ensures
        piece_components(a + b) == piece_components(a) + piece_components(b),
    decreases b.len(),
{
    if b.len() == 0 {
        assert(a + b =~= a);
        assert(piece_components(a) + piece_components(b) =~= piece_components(a));
    } else {
        lemma_piece_components_concat(a, b.drop_last());
        assert((a + b).drop_last() =~= a + b.drop_last());
        assert((a + b).last() == b.last());
        assert(piece_components(a + b) =~= piece_components(a) + piece_components(b));
    }
}

/// Components that follow others leave those in front as they are.
proof fn lemma_without_dots_prefix(a: Seq<ComponentView>, b: Seq<ComponentView>)
    ensures
        without_dots(a).is_prefix_of(without_dots(a + b)),
    decreases b.len(),
{
    let front = without_dots(a);
    if b.len() == 0 {
        assert(a + b =~= a);
        assert(front =~= front.subrange(0, front.len() as int));
    } else {
        lemma_without_dots_prefix(a, b.drop_last());
        assert((a + b).drop_last() =~= a + b.drop_last());
        let before = without_dots(a + b.drop_last());
        let all = without_dots(a + b);
        assert(front =~= before.subrange(0, front.len() as int));
        assert(front =~= all.subrange(0, front.len() as int));
    }
}

/// A path that does not start at the root lies below the one that it is joined to.
pub proof fn lemma_joined_lies_below(base: Seq<u8>, part: Seq<u8>)
    requires
        !has_root(part),
    ensures
        components(base).is_prefix_of(components(joined(base, part))),
{
    let whole = joined(base, part);
    if base.len() == 0 {
        assert(text::split(base, 47u8) =~= seq![Seq::<u8>::empty()]);
        reveal_with_fuel(piece_components, 2);
        assert(text::split(base, 47u8).drop_last() =~= Seq::<Seq<u8>>::empty());
        assert(written_components(base) =~= Seq::<ComponentView>::empty());
        assert(components(base) =~= components(whole).subrange(0, 0));
    } else {
        let front = if base.last() == 47 {
            base.drop_last()
        } else {
            base
        };
        assert(whole =~= front.push(47) + part);
        text::lemma_split_concat(front, part, 47u8);
        let pieces = text::split(front, 47u8);
        let after = piece_components(text::split(part, 47u8));
        lemma_piece_components_concat(pieces, text::split(part, 47u8));
        if base.last() == 47 {
            assert(text::split(base, 47u8) =~= pieces.push(Seq::<u8>::empty()));
            assert(pieces.push(Seq::<u8>::empty()).drop_last() =~= pieces);
        }
        assert(whole[0] == base[0]);
        assert(written_components(whole) =~= written_components(base) + after);
        lemma_without_dots_prefix(written_components(base), after);
    }
}

/// Only the separator is encoded with the separator in front.
proof fn lemma_encoded_char(c: char)
    ensures
        encode_scalar(c as u32).len() > 0,
        encode_scalar(c as u32)[0] == 47 ==> c == '/',
{
    let u = c as u32;
    char_is_scalar(c);
    if has_width_1_encoding(u) {
        assert(leading_byte_width_1(u) == 47 ==> u == 47) by (bit_vector)
            requires
                has_width_1_encoding(u),
        ;
    } else if has_width_2_encoding(u) {
        assert(leading_byte_width_2(u) != 47) by (bit_vector);
    } else if has_width_3_encoding(u) {
        assert(leading_byte_width_3(u) != 47) by (bit_vector);
    } else {
        assert(leading_byte_width_4(u) != 47) by (bit_vector);
    }
}

/// Only a text that starts with the separator is encoded with the separator in front.
proof fn lemma_encoded_first(chars: Seq<char>)
    requires
        has_root(encode_utf8(chars)),
    ensures
        chars.len() > 0 && chars[0] == '/',
{
    if chars.len() == 0 {
        assert(encode_utf8(chars) =~= Seq::<u8>::empty());
    } else {
        lemma_encoded_char(chars[0]);
        assert(encode_utf8(chars) == encode_scalar(chars[0] as u32) + encode_utf8(
            chars.drop_first(),
        ));
    }
}

/// No separator is left in front.
proof fn lemma_without_slashes(s: Seq<char>)
    ensures
        without_slashes(s).len() > 0 ==> without_slashes(s)[0] != '/',
    decreases s.len(),
{
    if s.len() > 0 && s[0] == '/' {
        lemma_without_slashes(s.skip(1));
    }
}

/// A path that is `~`, or starts with `~/`, stands for one that has the components of the home
/// directory in front.
pub proof fn law_tilde_lies_below_home(path: Seq<u8>, home: Seq<char>)
    requires
        valid_utf8(path),
        decode_utf8(path) == "~"@ || "~/"@.is_prefix_of(decode_utf8(path)),
    ensures
        components(encode_utf8(home)).is_prefix_of(components(expanded(path, Some(home)))),
{
    let all = components(encode_utf8(home));
    assert(all =~= all.subrange(0, all.len() as int));
    if decode_utf8(path) != "~"@ {
        let rest = without_slashes(decode_utf8(path).skip("~/"@.len() as int));
        lemma_without_slashes(decode_utf8(path).skip("~/"@.len() as int));
        if has_root(encode_utf8(rest)) {
            lemma_encoded_first(rest);
        }
        lemma_joined_lies_below(encode_utf8(home), encode_utf8(rest));
    }
}

// ---------------------------------------------------------------------------------------
// What holds of paths
// ---------------------------------------------------------------------------------------

/// The components of the pieces of a path are all that it writes after the root.
proof fn lemma_written_after_root(path: Seq<u8>)
    ensures
        piece_components(text::split(path, 47u8)) == if has_root(path) {
            written_components(path).skip(1)
        } else {
            written_components(path)
        },
{
    let names = piece_components(text::split(path, 47u8));
    if has_root(path) {
        assert(written_components(path).skip(1) =~= names);
    }
}

/// A path that starts at the root stands for itself. Any other writes its components after those of
/// the path that it is seen from.
pub proof fn law_joined(base: Seq<u8>, part: Seq<u8>)
    ensures
        part.len() > 0 && part[0] == 47 ==> joined(base, part) == part,
        !(part.len() > 0 && part[0] == 47) ==> written_components(joined(base, part))
            == written_components(base) + written_components(part),
{
    if !has_root(part) {
        let whole = joined(base, part);
        if base.len() == 0 {
            assert(whole =~= part);
            assert(text::split(base, 47u8) =~= seq![Seq::<u8>::empty()]);
            reveal_with_fuel(piece_components, 2);
            assert(text::split(base, 47u8).drop_last() =~= Seq::<Seq<u8>>::empty());
            assert(written_components(base) =~= Seq::<ComponentView>::empty());
            assert(written_components(whole) =~= written_components(base) + written_components(
                part,
            ));
        } else {
            let front = if base.last() == 47 {
                base.drop_last()
            } else {
                base
            };
            assert(whole =~= front.push(47) + part);
            text::lemma_split_concat(front, part, 47u8);
            let pieces = text::split(front, 47u8);
            lemma_piece_components_concat(pieces, text::split(part, 47u8));
            if base.last() == 47 {
                assert(text::split(base, 47u8) =~= pieces.push(Seq::<u8>::empty()));
                assert(pieces.push(Seq::<u8>::empty()).drop_last() =~= pieces);
            }
            assert(whole[0] == base[0]);
            assert(written_components(whole) =~= written_components(base) + written_components(
                part,
            ));
        }
    }
}

/// What a piece between two separators stands for: `.` and `..` for directories, any other for a
/// name. An empty one stands for nothing.
pub proof fn law_written_pieces(piece: Seq<u8>)
    requires
        !piece.contains(47),
    ensures
        piece.len() == 0 ==> written_components(piece) == Seq::<ComponentView>::empty(),
        piece == seq![46u8] ==> written_components(piece) == seq![ComponentView::CurDir],
        piece == seq![46u8, 46u8] ==> written_components(piece) == seq![ComponentView::ParentDir],
        piece.len() > 0 && piece != seq![46u8] && piece != seq![46u8, 46u8] ==> written_components(
            piece,
        ) == seq![ComponentView::Normal(piece)],
{
    text::lemma_split_whole(piece, 47u8);
    reveal_with_fuel(piece_components, 2);
    assert(seq![piece].drop_last() =~= Seq::<Seq<u8>>::empty());
    if piece.len() > 0 {
        assert(piece.contains(piece[0]));
        assert(piece_components(seq![piece]) =~= seq![component(piece)]);
        assert(seq![46u8].len() != seq![46u8, 46u8].len());
    } else {
        assert(piece_components(seq![piece]) =~= Seq::<ComponentView>::empty());
    }
}

/// A path from the root writes the root, and then what follows it.
pub proof fn law_written_root(rest: Seq<u8>)
    requires
        !(rest.len() > 0 && rest[0] == 47),
    ensures
        written_components(seq![47u8] + rest) == seq![ComponentView::RootDir]
            + written_components(rest),
{
    let none = Seq::<u8>::empty();
    let path = seq![47u8] + rest;
    assert(path =~= none.push(47u8) + rest);
    text::lemma_split_concat(none, rest, 47u8);
    assert(text::split(none, 47u8) =~= seq![none]);
    lemma_piece_components_concat(seq![none], text::split(rest, 47u8));
    assert(seq![none].drop_last() =~= Seq::<Seq<u8>>::empty());
    reveal_with_fuel(piece_components, 2);
    assert(piece_components(seq![none]) =~= Seq::<ComponentView>::empty());
    assert(path[0] == 47);
    assert(written_components(path) =~= seq![ComponentView::RootDir] + written_components(rest));
}

/// Components after the first ones: each that is not `.` counts.
pub proof fn lemma_without_dots_concat(a: Seq<ComponentView>, b: Seq<ComponentView>)
    requires
        a.len() > 0,
    ensures
        without_dots(a + b) == without_dots(a) + b.filter(|c: ComponentView| !(c is CurDir)),
    decreases b.len(),
{
    let p = |c: ComponentView| !(c is CurDir);
    reveal(Seq::filter);
    if b.len() == 0 {
        assert(a + b =~= a);
        assert(without_dots(a) + b.filter(p) =~= without_dots(a));
    } else {
        lemma_without_dots_concat(a, b.drop_last());
        assert((a + b).drop_last() =~= a + b.drop_last());
        assert((a + b).last() == b.last());
        assert(without_dots(a + b) =~= without_dots(a) + b.filter(p));
    }
}

/// Paths are compared by what they write: the first component counts whatever it is, and of the
/// others each that is not `.` does, in order.
pub proof fn law_components(path: Seq<u8>)
    ensures
        written_components(path).len() == 0 ==> components(path).len() == 0,
        written_components(path).len() > 0 ==> components(path) == seq![written_components(path)[0]]
            + written_components(path).skip(1).filter(|c: ComponentView| !(c is CurDir)),
{
    let all = written_components(path);
    if all.len() > 0 {
        let first = seq![all[0]];
        assert(all =~= first + all.skip(1));
        lemma_without_dots_concat(first, all.skip(1));
        assert(first.drop_last() =~= Seq::<ComponentView>::empty());
        reveal_with_fuel(without_dots, 2);
        assert(without_dots(first) =~= first);
    }
}

/// What is left after some components is what has to follow them.
pub proof fn law_after_components(base: Seq<ComponentView>, rest: Seq<ComponentView>)
    ensures
        after_components(base, base + rest) == Some(rest),
        forall|all: Seq<ComponentView>|
            #[trigger] after_components(base, all) is Some ==> all == base + after_components(
                base,
                all,
            ).unwrap(),
{
    let whole = base + rest;
    assert(base =~= whole.subrange(0, base.len() as int));
    assert(whole.skip(base.len() as int) =~= rest);
    assert forall|all: Seq<ComponentView>| #[trigger] after_components(base, all) is Some implies all
        == base + after_components(base, all).unwrap() by {
        assert(base =~= all.subrange(0, base.len() as int));
        assert(all =~= base + all.skip(base.len() as int));
    }
}

/// The last name of a path is what stands after its last separator, where that is a name in text.
pub proof fn law_last_name(dir: Seq<u8>, name: Seq<u8>)
    requires
        name.len() > 0,
        !name.contains(47),
        name != seq![46u8],
        name != seq![46u8, 46u8],
    ensures
        valid_utf8(name) ==> last_name(joined(dir, name)) == Some(decode_utf8(name)),
        !valid_utf8(name) ==> last_name(joined(dir, name)) is None,
{
    lemma_joined_name(dir, name);
    let written = written_components(dir);
    let c = ComponentView::Normal(name);
    assert(written.push(c).drop_last() =~= written);
    assert(components(joined(dir, name)) =~= components(dir).push(c));
}

/// A path that ends in `..` has no last name, nor has the root.
pub proof fn law_no_last_name(dir: Seq<u8>)
    ensures
        last_name(joined(dir, seq![46u8, 46u8])) is None,
        last_name(seq![47u8]) is None,
        last_name(Seq::empty()) is None,
{
    let up = seq![46u8, 46u8];
    law_joined(dir, up);
    law_written_pieces(up);
    let written = written_components(dir);
    assert(written + seq![ComponentView::ParentDir] =~= written.push(ComponentView::ParentDir));
    assert(written.push(ComponentView::ParentDir).drop_last() =~= written);
    let none = Seq::<u8>::empty();
    law_written_pieces(none);
    law_written_root(none);
    assert(seq![47u8] + none =~= seq![47u8]);
    law_components(seq![47u8]);
    law_components(none);
    reveal(Seq::filter);
    let root = written_components(seq![47u8]);
    assert(root =~= seq![ComponentView::RootDir]);
    assert(root.skip(1) =~= Seq::<ComponentView>::empty());
    assert(components(seq![47u8]) =~= root);
}

/// Separators at the end do not count.
pub proof fn law_trailing_separator(path: Seq<u8>)
    requires
        path.len() > 0,
    ensures
        written_components(path.push(47)) == written_components(path),
        components(path.push(47)) == components(path),
        last_name(path.push(47)) == last_name(path),
{
    let whole = path.push(47);
    let none = Seq::<u8>::empty();
    assert(whole =~= path.push(47u8) + none);
    text::lemma_split_concat(path, none, 47u8);
    assert(text::split(none, 47u8) =~= seq![none]);
    let pieces = text::split(path, 47u8);
    assert(text::split(whole, 47u8) =~= pieces.push(none));
    assert(pieces.push(none).drop_last() =~= pieces);
    assert(whole[0] == path[0]);
    assert(written_components(whole) =~= written_components(path));
}

// ---------------------------------------------------------------------------------------
// What holds of exports
// ---------------------------------------------------------------------------------------

/// Whatever the name of a file in a collection is, each of its parts is written below the directory,
/// one after the other: a name never leads to a place that does not start with the directory.
pub proof fn law_export_path_parts(root: Seq<u8>, name: Seq<char>)
    ensures
        components(root).is_prefix_of(components(export_path(root, name))),
        written_components(export_path(root, name)) == written_components(root)
            + parts_written(text::split(name, '/')),
{
    let parts = text::split(name, '/');
    text::lemma_split_free(name, '/');
    lemma_parts_written(root, parts);
    lemma_without_dots_prefix(written_components(root), parts_written(parts));
}

/// What the parts of a name write, one after the other.
pub open spec fn parts_written(parts: Seq<Seq<char>>) -> Seq<ComponentView>
    decreases parts.len(),
{
    if parts.len() == 0 {
        Seq::empty()
    } else {
        parts_written(parts.drop_last()) + written_components(encode_utf8(parts.last()))
    }
}

proof fn lemma_parts_written(root: Seq<u8>, parts: Seq<Seq<char>>)
    requires
        forall|i: int| 0 <= i < parts.len() ==> !(#[trigger] parts[i]).contains('/'),
    ensures
        written_components(joined_all(root, parts)) == written_components(root) + parts_written(
            parts,
        ),
    decreases parts.len(),
{
    if parts.len() == 0 {
        assert(written_components(root) + parts_written(parts) =~= written_components(root));
    } else {
        let front = parts.drop_last();
        assert(forall|i: int| 0 <= i < front.len() ==> front[i] == parts[i]);
        lemma_parts_written(root, front);
        let last = parts[parts.len() - 1];
        assert(!last.contains('/'));
        if has_root(encode_utf8(last)) {
            lemma_encoded_first(last);
            assert(last.contains(last[0]));
        }
        law_joined(joined_all(root, front), encode_utf8(last));
        assert(written_components(root) + (parts_written(front) + written_components(
            encode_utf8(last),
        )) =~= (written_components(root) + parts_written(front)) + written_components(
            encode_utf8(last),
        ));
    }
}

// ---------------------------------------------------------------------------------------
// What holds of the home directory
// ---------------------------------------------------------------------------------------

/// An ASCII character in front of a text is encoded as one byte in front.
proof fn lemma_encoded_ascii(c: char, s: Seq<char>)
    requires
        (c as u32) < 128,
    ensures
        encode_utf8(seq![c] + s) == seq![c as u8] + encode_utf8(s),
{
    let one = seq![c];
    let all = one + s;
    assert(is_ascii_chars(one));
    is_ascii_chars_encode_utf8(one);
    assert(one.drop_first() =~= Seq::<char>::empty());
    assert(encode_utf8(one) =~= encode_scalar(c as u32) + encode_utf8(one.drop_first()));
    assert(encode_utf8(one.drop_first()) =~= Seq::<u8>::empty());
    assert(encode_utf8(one)[0] == one[0] as u8);
    assert(encode_scalar(c as u32) =~= seq![c as u8]);
    assert(all[0] == c);
    assert(all.drop_first() =~= s);
}

/// Only an ASCII character is encoded with its own byte in front.
proof fn lemma_decoded_ascii(c: char, b: u8)
    requires
        b < 128,
        encode_scalar(c as u32).len() > 0,
        encode_scalar(c as u32)[0] == b,
    ensures
        c as u32 == b,
        c == b as char,
{
    let u = c as u32;
    char_is_scalar(c);
    if has_width_1_encoding(u) {
        assert(leading_byte_width_1(u) == b ==> u == b) by (bit_vector)
            requires
                has_width_1_encoding(u),
        ;
    } else if has_width_2_encoding(u) {
        assert(leading_byte_width_2(u) >= 128) by (bit_vector);
    } else if has_width_3_encoding(u) {
        assert(leading_byte_width_3(u) >= 128) by (bit_vector);
    } else {
        assert(leading_byte_width_4(u) >= 128) by (bit_vector);
    }
}

/// A text whose encoding starts with an ASCII byte starts with that character, and what follows
/// the byte encodes what follows the character.
proof fn lemma_decoded_first(s: Seq<char>, b: u8, tail: Seq<u8>)
    requires
        b < 128,
        encode_utf8(s) == seq![b] + tail,
    ensures
        s.len() > 0,
        s[0] == b as char,
        encode_utf8(s.drop_first()) == tail,
{
    if s.len() == 0 {
        assert(encode_utf8(s) =~= Seq::<u8>::empty());
        assert((seq![b] + tail).len() > 0);
    } else {
        let c = s[0];
        lemma_encoded_char(c);
        assert(encode_utf8(s) == encode_scalar(c as u32) + encode_utf8(s.drop_first()));
        assert(encode_utf8(s)[0] == b);
        lemma_decoded_ascii(c, b);
        assert(s =~= seq![c] + s.drop_first());
        lemma_encoded_ascii(c, s.drop_first());
        assert((seq![b] + tail).skip(1) =~= tail);
        assert((seq![c as u8] + encode_utf8(s.drop_first())).skip(1) =~= encode_utf8(
            s.drop_first(),
        ));
    }
}

/// A path that is neither `~` nor starts with `~/` is left as it is, byte for byte, whatever the
/// home directory is. So is any path where no home directory is known, and any that is not text.
pub proof fn law_other_paths_are_left_alone(path: Seq<u8>, home: Option<Seq<char>>)
    requires
        (path != seq![126u8] && !(path.len() >= 2 && path[0] == 126 && path[1] == 47)) || home
            is None || !valid_utf8(path),
    ensures
        expanded(path, home) == path,
{
    reveal_strlit("~");
    reveal_strlit("~/");
    if valid_utf8(path) && home is Some {
        let s = decode_utf8(path);
        decode_utf8_encode_utf8(path);
        let none = Seq::<char>::empty();
        if s == "~"@ {
            assert(s =~= seq!['~'] + none);
            lemma_encoded_ascii('~', none);
            assert(encode_utf8(none) =~= Seq::<u8>::empty());
            assert(path =~= seq![126u8]);
        } else if "~/"@.is_prefix_of(s) {
            let rest = s.skip(2);
            assert("~/"@ =~= s.subrange(0, 2));
            assert(s[0] == "~/"@[0] && s[1] == "~/"@[1]);
            assert(s =~= seq!['~'] + (seq!['/'] + rest));
            lemma_encoded_ascii('/', rest);
            lemma_encoded_ascii('~', seq!['/'] + rest);
            assert(path[0] == 126 && path[1] == 47);
        }
    }
}

/// The path `~` alone stands for the home directory itself.
pub proof fn law_tilde_is_home(home: Seq<char>)
    ensures
        expanded(seq![126u8], Some(home)) == encode_utf8(home),
{
    reveal_strlit("~");
    let none = Seq::<char>::empty();
    lemma_encoded_ascii('~', none);
    assert(encode_utf8(none) =~= Seq::<u8>::empty());
    assert("~"@ =~= seq!['~'] + none);
    assert(encode_utf8("~"@) =~= seq![126u8]);
    encode_utf8_valid_utf8("~"@);
    encode_utf8_decode_utf8("~"@);
}

/// Separators in front write nothing but the root.
proof fn lemma_slashes_write_nothing(s: Seq<char>)
    ensures
        piece_components(text::split(encode_utf8(s), 47u8)) == piece_components(
            text::split(encode_utf8(without_slashes(s)), 47u8),
        ),
    decreases s.len(),
{
    if s.len() > 0 && s[0] == '/' {
        let rest = s.skip(1);
        lemma_slashes_write_nothing(rest);
        assert(s =~= seq!['/'] + rest);
        lemma_encoded_ascii('/', rest);
        let none = Seq::<u8>::empty();
        let tail = encode_utf8(rest);
        assert(encode_utf8(s) =~= none.push(47u8) + tail);
        text::lemma_split_concat(none, tail, 47u8);
        assert(text::split(none, 47u8) =~= seq![none]);
        lemma_piece_components_concat(seq![none], text::split(tail, 47u8));
        assert(seq![none].drop_last() =~= Seq::<Seq<u8>>::empty());
        reveal_with_fuel(piece_components, 2);
        assert(piece_components(seq![none]) =~= Seq::<ComponentView>::empty());
        assert(piece_components(text::split(encode_utf8(s), 47u8)) =~= piece_components(
            text::split(tail, 47u8),
        ));
    }
}

/// A path that starts with `~/` stands for what follows, below the home directory: it writes the
/// components of the home directory, and then all that stands after the `~`, but for the root.
pub proof fn law_tilde_path(tail: Seq<u8>, home: Seq<char>)
    requires
        valid_utf8(seq![126u8, 47u8] + tail),
    ensures
        written_components(expanded(seq![126u8, 47u8] + tail, Some(home))) == written_components(
            encode_utf8(home),
        ) + if tail.len() > 0 && tail[0] == 47 {
            written_components(tail).skip(1)
        } else {
            written_components(tail)
        },
{
    reveal_strlit("~");
    reveal_strlit("~/");
    let path = seq![126u8, 47u8] + tail;
    let s = decode_utf8(path);
    decode_utf8_encode_utf8(path);
    assert(path =~= seq![126u8] + (seq![47u8] + tail));
    lemma_decoded_first(s, 126, seq![47u8] + tail);
    let t = s.drop_first();
    lemma_decoded_first(t, 47, tail);
    let rest = s.skip(2);
    assert(t.drop_first() =~= rest);
    assert(s[0] == '~');
    assert(s[1] == t[0]);
    assert(s[1] == '/');
    assert("~/"@ =~= s.subrange(0, 2));
    assert("~/"@.is_prefix_of(s));
    assert(s.len() >= 2);
    assert("~"@.len() == 1);
    let left = encode_utf8(without_slashes(rest));
    lemma_without_slashes(rest);
    if has_root(left) {
        lemma_encoded_first(without_slashes(rest));
    }
    law_joined(encode_utf8(home), left);
    lemma_slashes_write_nothing(rest);
    lemma_written_after_root(tail);
    lemma_written_after_root(left);
}

/// Pieces stand for nothing but `.` exactly where each is empty or `.` itself.
pub proof fn lemma_only_dots(pieces: Seq<Seq<u8>>)
    ensures
        piece_components(pieces).filter(|c: ComponentView| !(c is CurDir)).len() == 0 <==> forall|
            i: int,
        |
            0 <= i < pieces.len() ==> (#[trigger] pieces[i]).len() == 0 || pieces[i] == seq![46u8],
    decreases pieces.len(),
{
    let p = |c: ComponentView| !(c is CurDir);
    reveal(Seq::filter);
    if pieces.len() > 0 {
        let front = pieces.drop_last();
        let last = pieces.last();
        lemma_only_dots(front);
        assert(forall|i: int| 0 <= i < front.len() ==> front[i] == pieces[i]);
        assert(pieces[pieces.len() - 1] == last);
        if last.len() > 0 {
            let all = piece_components(front).push(component(last));
            assert(all.drop_last() =~= piece_components(front));
        }
        if forall|i: int|
            0 <= i < front.len() ==> (#[trigger] front[i]).len() == 0 || front[i] == seq![46u8] {
            assert forall|i: int| 0 <= i < front.len() implies (#[trigger] pieces[i]).len() == 0
                || pieces[i] == seq![46u8] by {
                assert(front[i].len() == 0 || front[i] == seq![46u8]);
            }
        } else {
            let i = choose|i: int|
                0 <= i < front.len() && !((#[trigger] front[i]).len() == 0 || front[i]
                    == seq![46u8]);
            assert(!(pieces[i].len() == 0 || pieces[i] == seq![46u8]));
        }
    }
}

/// Components have a name exactly where each can be part of one, and the name has their texts
/// between its separators.
pub proof fn lemma_named(parts: Seq<ComponentView>)
    ensures
        canonical(parts, true) is Ok <==> forall|i: int|
            0 <= i < parts.len() ==> (#[trigger] parts[i] matches ComponentView::Normal(n)
                && valid_utf8(n) && !decode_utf8(n).contains('/') && !decode_utf8(n).contains('\\')),
        canonical(parts, true) is Ok && parts.len() > 0 ==> {
            let between = text::split(canonical(parts, true)->Ok_0, '/');
            &&& between.len() == parts.len()
            &&& forall|i: int|
                0 <= i < parts.len() ==> #[trigger] between[i] == decode_utf8(parts[i]->Normal_0)
        },
{
    lemma_first_error(parts, true);
    if first_error(parts, true) is None {
        lemma_no_error(parts);
        let all = names(parts);
        if parts.len() > 0 {
            assert(canonical_text(parts) =~= text::join(all, '/'));
            assert forall|i: int| 0 <= i < all.len() implies !(#[trigger] all[i]).contains('/') by {
                assert(component_error(parts[i], true) is None);
            }
            text::lemma_split_join(all, '/');
        }
        assert forall|i: int| 0 <= i < parts.len() implies (
            #[trigger] parts[i] matches ComponentView::Normal(n) && valid_utf8(n) && !decode_utf8(
                n,
            ).contains('/') && !decode_utf8(n).contains('\\')) by {
            assert(component_error(parts[i], true) is None);
        }
    } else {
        let i = choose|i: int|
            0 <= i < parts.len() && !(component_error(#[trigger] parts[i], true) is None);
        assert(!(parts[i] matches ComponentView::Normal(n) && valid_utf8(n) && !decode_utf8(
            n,
        ).contains('/') && !decode_utf8(n).contains('\\')));
    }
}

/// Why a path has no name is told by its first component that cannot be part of one: a `.`, a `..`,
/// the root where it is not allowed, what is no text, or a name with a separator in it.
pub proof fn law_first_component_at_fault(
    front: Seq<ComponentView>,
    c: ComponentView,
    rest: Seq<ComponentView>,
    must_be_relative: bool,
)
    requires
        canonical(front, must_be_relative) is Ok,
        canonical(seq![c], must_be_relative) is Err,
    ensures
        canonical(front + seq![c] + rest, must_be_relative) == canonical(
            seq![c],
            must_be_relative,
        ),
        c is CurDir ==> canonical(seq![c], must_be_relative)->Err_0 is CurDir,
        c is ParentDir ==> canonical(seq![c], must_be_relative)->Err_0 is ParentDir,
        c is RootDir ==> must_be_relative && canonical(seq![c], must_be_relative)->Err_0
            is RootDir,
        c matches ComponentView::Normal(n) ==> canonical(seq![c], must_be_relative)->Err_0
            == if valid_utf8(n) {
            PathErrorView::InvalidName(decode_utf8(n))
        } else {
            PathErrorView::InvalidCharacter
        },
{
    let all = front + seq![c] + rest;
    let n = front.len() as int;
    assert(seq![c].drop_last() =~= Seq::<ComponentView>::empty());
    reveal_with_fuel(first_error, 2);
    assert(first_error(seq![c], must_be_relative) == component_error(c, must_be_relative));
    assert(all.take(n + 1).drop_last() =~= front);
    assert(all.take(n + 1).last() == c);
    assert(first_error(all.take(n + 1), must_be_relative) == component_error(c, must_be_relative));
    lemma_first_error_stays(all, n + 1, must_be_relative);
}

/// A path from the root has the name of what follows the root, with a separator in front, where the
/// root is allowed.
pub proof fn law_rooted_name(parts: Seq<ComponentView>)
    requires
        forall|i: int| 0 <= i < parts.len() ==> !((#[trigger] parts[i]) is RootDir),
    ensures
        canonical(seq![ComponentView::RootDir] + parts, true) is Err,
        canonical(parts, false) == canonical(parts, true),
        canonical(parts, true) matches Ok(name) ==> canonical(
            seq![ComponentView::RootDir] + parts,
            false,
        ) == Ok::<Seq<char>, PathErrorView>("/"@ + name),
        canonical(parts, true) is Err ==> canonical(seq![ComponentView::RootDir] + parts, false)
            == canonical(parts, true),
    decreases parts.len(),
{
    lemma_rooted(parts);
    reveal_strlit("/");
    let root = seq![ComponentView::RootDir];
    if first_error(parts, true) is None {
        assert(canonical_text(root + parts) =~= "/"@ + canonical_text(parts));
    }
}

proof fn lemma_rooted(parts: Seq<ComponentView>)
    requires
        forall|i: int| 0 <= i < parts.len() ==> !((#[trigger] parts[i]) is RootDir),
    ensures
        first_error(seq![ComponentView::RootDir] + parts, true) is Some,
        first_error(parts, false) == first_error(parts, true),
        first_error(seq![ComponentView::RootDir] + parts, false) == first_error(parts, true),
        names(seq![ComponentView::RootDir] + parts) == names(parts),
        roots(seq![ComponentView::RootDir] + parts) == seq!['/'],
        roots(parts) == Seq::<char>::empty(),
    decreases parts.len(),
{
    let root = seq![ComponentView::RootDir];
    let all = root + parts;
    if parts.len() == 0 {
        assert(all =~= root);
        assert(root.drop_last() =~= Seq::<ComponentView>::empty());
        reveal_with_fuel(first_error, 2);
        reveal_with_fuel(names, 2);
        reveal_with_fuel(roots, 2);
        assert(names(all) =~= names(parts));
        assert(roots(all) =~= seq!['/']);
    } else {
        let front = parts.drop_last();
        assert(forall|i: int| 0 <= i < front.len() ==> front[i] == parts[i]);
        lemma_rooted(front);
        assert(!(parts[parts.len() - 1] is RootDir));
        assert(all.drop_last() =~= root + front);
        assert(all.last() == parts.last());
    }
}

/// Components are looked at one by one: none is left out, added or moved.
pub proof fn law_component_views(v: Seq<PathComponent>, i: int)
    ensures
        component_views(v).len() == v.len(),
        0 <= i < v.len() ==> {
            &&& v[i] is RootDir ==> component_views(v)[i] is RootDir
            &&& v[i] is CurDir ==> component_views(v)[i] is CurDir
            &&& v[i] is ParentDir ==> component_views(v)[i] is ParentDir
            &&& v[i] matches PathComponent::Normal(n) ==> component_views(v)[i]
                == ComponentView::Normal(n@)
        },
{
}

/// A name or an error is looked at as what it is.
pub proof fn law_string_result(s: String, e: PathError)
    ensures
        string_result(Ok(s)) == Ok::<Seq<char>, PathErrorView>(s@),
        string_result(Err(e)) == Err::<Seq<char>, PathErrorView>(e@),
        e is InvalidCharacter <==> e@ is InvalidCharacter,
        e matches PathError::InvalidName(n) ==> e@ == PathErrorView::InvalidName(n@),
        e is RootDir <==> e@ is RootDir,
        e is CurDir <==> e@ is CurDir,
        e is ParentDir <==> e@ is ParentDir,
        e is Separator <==> e@ is Separator,
{
}

}
