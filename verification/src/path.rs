//! Absolute, lexically normalised paths of either platform family.
//!
//! Repository trees may live on another machine than the one that reads them, so a path carries
//! its own encoding instead of following the local platform's.

use vstd::prelude::*;

use crate::text;

verus! {

/// The platform family whose rules a path is written by.
#[derive(Debug, Clone, Copy, PartialEq, Eq, Structural)]
pub enum PathEncoding {
    Unix,
    Windows,
}

/// Where an absolute path starts.
#[derive(Debug, Clone, Copy, PartialEq, Eq, Structural)]
pub enum PathRoot {
    /// The single root `/`.
    Unix,
    /// The root of a drive, such as `C:\`.
    Windows { drive: char },
}

/// What a [`StandardizedPath`] stands for: its root and the names below it, outermost first.
#[verifier::ext_equal]
pub struct PathView {
    pub root: PathRoot,
    pub components: Seq<Seq<char>>,
}

impl PathRoot {
    pub open spec fn spec_encoding(self) -> PathEncoding {
        match self {
            PathRoot::Unix => PathEncoding::Unix,
            PathRoot::Windows { .. } => PathEncoding::Windows,
        }
    }

    /// Whether `\` separates components below this root.
    pub open spec fn backslash(self) -> bool {
        self is Windows
    }

    /// The separator that written paths use below this root.
    pub open spec fn separator(self) -> char {
        match self {
            PathRoot::Unix => '/',
            PathRoot::Windows { .. } => '\\',
        }
    }

    /// How the root itself is written.
    pub open spec fn text(self) -> Seq<char> {
        match self {
            PathRoot::Unix => seq!['/'],
            PathRoot::Windows { drive } => seq![drive, ':', '\\'],
        }
    }

    pub open spec fn valid(self) -> bool {
        self matches PathRoot::Windows { drive } ==> is_drive_letter(drive)
    }
}

pub open spec fn is_drive_letter(c: char) -> bool {
    'a' <= c <= 'z' || 'A' <= c <= 'Z'
}

/// Whether a component is an ordinary name: neither empty nor `.` nor `..`.
pub open spec fn is_name(component: Seq<char>) -> bool {
    &&& component.len() > 0
    &&& component != seq!['.']
    &&& component != seq!['.', '.']
}

/// Resolves `.` and `..` lexically and drops empty components; `..` at the root stays there.
pub open spec fn resolve(components: Seq<Seq<char>>) -> Seq<Seq<char>>
    decreases components.len(),
{
    if components.len() == 0 {
        components
    } else {
        let before = resolve(components.drop_last());
        let last = components.last();
        if is_name(last) {
            before.push(last)
        } else if last == seq!['.', '.'] && before.len() > 0 {
            before.drop_last()
        } else {
            before
        }
    }
}

impl PathView {
    /// What every path holds: ordinary names, none of which contains a separator.
    pub open spec fn valid(self) -> bool {
        &&& self.root.valid()
        &&& forall|i: int|
            0 <= i < self.components.len() ==> {
                &&& is_name(#[trigger] self.components[i])
                &&& text::separator_free(self.components[i], self.root.backslash())
            }
    }

    /// The path as it is written.
    pub open spec fn text(self) -> Seq<char> {
        self.root.text() + text::join(self.components, self.root.separator())
    }

    pub open spec fn file_name(self) -> Option<Seq<char>> {
        if self.components.len() == 0 {
            None
        } else {
            Some(self.components.last())
        }
    }

    pub open spec fn parent(self) -> Option<PathView> {
        if self.components.len() == 0 {
            None
        } else {
            Some(PathView { root: self.root, components: self.components.drop_last() })
        }
    }

    /// The path of the entry called `name` in this directory.
    pub open spec fn child(self, name: Seq<char>) -> PathView {
        PathView { root: self.root, components: self.components.push(name) }
    }

    /// What follows the last `.` of the file name, unless that `.` is its first character.
    pub open spec fn extension(self) -> Option<Seq<char>> {
        match self.file_name() {
            Some(name) if text::last_position(name, '.') > 0 => Some(
                name.skip(text::last_position(name, '.') + 1),
            ),
            _ => None,
        }
    }

    /// Whether this path lies below `ancestor`, at any depth but not at `ancestor` itself.
    pub open spec fn strictly_below(self, ancestor: PathView) -> bool {
        &&& self.root == ancestor.root
        &&& self.components.len() > ancestor.components.len()
        &&& self.components.take(ancestor.components.len() as int) == ancestor.components
    }
}

/// Whether `path` is `root` or lies below it.
pub open spec fn lies_in(path: PathView, root: PathView) -> bool {
    path == root || path.strictly_below(root)
}

/// What lies below a path lies below everything that the path lies below.
pub proof fn below_is_transitive(a: PathView, b: PathView, c: PathView)
    requires
        a.strictly_below(b),
        b.strictly_below(c),
    ensures
        a.strictly_below(c),
{
    assert(a.components.take(c.components.len() as int) =~= a.components.take(
        b.components.len() as int,
    ).take(c.components.len() as int));
}

/// A path lies below its parent, and every other path that it lies below is one that its parent
/// lies below.
pub proof fn parent_is_the_nearest_above(path: PathView, parent: PathView, above: PathView)
    requires
        path.parent() == Some(parent),
    ensures
        path.strictly_below(parent),
        path.strictly_below(above) <==> lies_in(parent, above),
{
    assert(path.components.take(parent.components.len() as int) =~= parent.components);
    if path.strictly_below(above) {
        assert(parent.components.take(above.components.len() as int) =~= above.components);
        if parent.components.len() == above.components.len() {
            assert(parent.components =~= above.components);
        }
    }
    if parent.strictly_below(above) {
        below_is_transitive(path, parent, above);
    }
}

/// A path lies below another exactly if it starts at the same root with the components of the
/// other and goes on from there.
pub proof fn paths_below_go_on_from_their_ancestor(path: PathView, ancestor: PathView)
    ensures
        path.strictly_below(ancestor) <==> path.root == ancestor.root && exists|
            rest: Seq<Seq<char>>,
        |
            rest.len() > 0 && path.components == #[trigger] (ancestor.components + rest),
        lies_in(path, ancestor) <==> path.root == ancestor.root && exists|rest: Seq<Seq<char>>|
            path.components == #[trigger] (ancestor.components + rest),
{
    let len = ancestor.components.len() as int;
    if path.strictly_below(ancestor) {
        let rest = path.components.skip(len);
        assert(path.components =~= ancestor.components + rest);
    }
    if path == ancestor {
        assert(path.components =~= ancestor.components + Seq::empty());
    }
    if path.root == ancestor.root && exists|rest: Seq<Seq<char>>|
        path.components == #[trigger] (ancestor.components + rest) {
        let rest = choose|rest: Seq<Seq<char>>|
            path.components == #[trigger] (ancestor.components + rest);
        assert(path.components.take(len) =~= ancestor.components);
        if rest.len() == 0 {
            assert(path.components =~= ancestor.components);
        }
    }
    if exists|rest: Seq<Seq<char>>|
        rest.len() > 0 && path.components == #[trigger] (ancestor.components + rest) {
        let rest = choose|rest: Seq<Seq<char>>|
            rest.len() > 0 && path.components == #[trigger] (ancestor.components + rest);
        assert(path.components.take(len) =~= ancestor.components);
    }
}

/// The entry with a name in a directory has that name and that parent, on every platform; a root
/// has neither.
pub proof fn entries_have_their_name_and_parent(
    root: PathRoot,
    above: Seq<Seq<char>>,
    name: Seq<char>,
)
    ensures
        ({
            let directory = PathView { root, components: above };
            let entry = PathView { root, components: above.push(name) };
            let top = PathView { root, components: Seq::empty() };
            &&& directory.child(name) == entry
            &&& entry.file_name() == Some(name)
            &&& entry.parent() == Some(directory)
            &&& top.file_name() is None
            &&& top.parent() is None
        }),
{
    assert(above.push(name).drop_last() =~= above);
}

/// The extension of a name is what stands behind its last dot, if something stands before that
/// dot: a name has an extension exactly if it can be parted there, and only in one way.
pub proof fn extensions_stand_behind_the_last_dot(
    path: PathView,
    stem: Seq<char>,
    extension: Seq<char>,
)
    requires
        path.components.len() > 0,
    ensures
        path.components.last() == stem + seq!['.'] + extension && stem.len() > 0
            && !extension.contains('.') ==> path.extension() == Some(extension),
        path.extension() == Some(extension) ==> !extension.contains('.') && exists|
            before: Seq<char>,
        |
            before.len() > 0 && path.components.last() == #[trigger] (before + seq!['.']
                + extension),
        path.extension() is None ==> forall|i: int|
            0 < i < path.components.last().len() ==> #[trigger] path.components.last()[i] != '.',
{
    let name = path.components.last();
    let at = text::last_position(name, '.');
    text::last_position_is_the_last_one(name, '.');
    if name == stem + seq!['.'] + extension && stem.len() > 0 && !extension.contains('.') {
        let dot = stem.len() as int;
        assert(name[dot] == '.');
        assert(at >= dot);
        if at > dot {
            assert(extension[at - dot - 1] == name[at]);
            assert(extension.contains('.'));
        }
        assert(name.skip(at + 1) =~= extension);
    }
    if path.extension() == Some(extension) {
        let before = name.take(at);
        assert(name =~= before + seq!['.'] + extension);
        if extension.contains('.') {
            let k = choose|k: int| 0 <= k < extension.len() && extension[k] == '.';
            assert(name[at + 1 + k] == '.');
        }
    }
}

/// Where a path has no components it has no extension either.
pub proof fn roots_have_no_extension(path: PathView)
    requires
        path.components.len() == 0,
    ensures
        path.extension() is None,
{
}

/// A path is written as its root, with the names behind it, each but the first behind the
/// separator of its platform.
pub proof fn paths_are_written_name_by_name(path: PathView, name: Seq<char>)
    ensures
        (PathView { root: PathRoot::Unix, components: Seq::empty() }).text() == seq!['/'],
        forall|drive: char|
            (#[trigger] (PathView {
                root: PathRoot::Windows { drive },
                components: Seq::empty(),
            }).text()) == seq![drive, ':', '\\'],
        path.components.len() == 0 ==> (PathView {
            root: path.root,
            components: path.components.push(name),
        }).text() == path.text() + name,
        path.components.len() > 0 && path.root is Unix ==> (PathView {
            root: path.root,
            components: path.components.push(name),
        }).text() == path.text() + seq!['/'] + name,
        path.components.len() > 0 && path.root is Windows ==> (PathView {
            root: path.root,
            components: path.components.push(name),
        }).text() == path.text() + seq!['\\'] + name,
{
    let longer = path.components.push(name);
    let separator = path.root.separator();
    text::joined_pieces_follow_each_other(path.components, name, separator);
    assert(seq!['/'] + Seq::empty() =~= seq!['/']);
    assert forall|drive: char|
        (#[trigger] (PathView {
            root: PathRoot::Windows { drive },
            components: Seq::empty(),
        }).text()) == seq![drive, ':', '\\'] by {
        assert(seq![drive, ':', '\\'] + Seq::empty() =~= seq![drive, ':', '\\']);
    }
    if path.components.len() == 0 {
        assert(path.components =~= Seq::empty());
        assert(longer =~= seq![name]);
        assert(path.text() =~= path.root.text());
    } else {
        assert(path.root.text() + (text::join(path.components, separator) + seq![separator] + name)
            =~= path.text() + seq![separator] + name);
    }
}

/// A path belongs to the platform that its root belongs to.
pub proof fn encodings_follow_roots(path: PathView)
    ensures
        path.root is Unix <==> path.root.spec_encoding() == PathEncoding::Unix,
        path.root is Windows <==> path.root.spec_encoding() == PathEncoding::Windows,
{
}

/// The root that a written path starts with, and how many characters it takes up.
pub open spec fn leading_root(s: Seq<char>) -> Option<(PathRoot, int)> {
    if s.len() >= 1 && s[0] == '/' {
        Some((PathRoot::Unix, 1))
    } else if s.len() >= 3 && is_drive_letter(s[0]) && s[1] == ':' && (s[2] == '/' || s[2]
        == '\\') {
        Some((PathRoot::Windows { drive: s[0] }, 3))
    } else {
        None
    }
}

/// The path that `s` denotes; `None` where `s` is not absolute.
pub open spec fn parse_path(s: Seq<char>) -> Option<PathView> {
    match leading_root(s) {
        Some((root, len)) => Some(
            PathView { root, components: resolve(text::split(s.skip(len), root.backslash())) },
        ),
        None => None,
    }
}

/// Resolving leaves ordinary names only, each one of the given components.
pub proof fn lemma_resolve(components: Seq<Seq<char>>)
    ensures
        forall|i: int|
            0 <= i < resolve(components).len() ==> is_name(#[trigger] resolve(components)[i])
                && components.contains(resolve(components)[i]),
    decreases components.len(),
{
    if components.len() > 0 {
        let front = components.drop_last();
        lemma_resolve(front);
        assert forall|i: int| 0 <= i < resolve(components).len() implies is_name(
            #[trigger] resolve(components)[i],
        ) && components.contains(resolve(components)[i]) by {
            if i < resolve(front).len() {
                assert(resolve(components)[i] == resolve(front)[i]);
                let k = choose|k: int| 0 <= k < front.len() && front[k] == resolve(front)[i];
                assert(components[k] == front[k]);
            } else {
                assert(components[components.len() - 1] == resolve(components)[i]);
            }
        }
    }
}

/// Ordinary names resolve to themselves.
pub proof fn lemma_resolve_names(components: Seq<Seq<char>>)
    requires
        forall|i: int| 0 <= i < components.len() ==> is_name(#[trigger] components[i]),
    ensures
        resolve(components) == components,
    decreases components.len(),
{
    if components.len() > 0 {
        let front = components.drop_last();
        assert forall|i: int| 0 <= i < front.len() implies is_name(#[trigger] front[i]) by {
            assert(front[i] == components[i]);
        }
        lemma_resolve_names(front);
        assert(is_name(components[components.len() - 1]));
        assert(front.push(components.last()) =~= components);
    }
}

/// A text denotes a path exactly if it starts with a slash, or with a drive letter, a colon and a
/// slash of either kind; the drive letter is kept as it is written.
pub proof fn absolute_texts_start_at_a_root(s: Seq<char>)
    ensures
        s.len() >= 1 && s[0] == '/' ==> (parse_path(s) matches Some(path) && path.root
            == PathRoot::Unix),
        s.len() >= 3 && ('a' <= s[0] <= 'z' || 'A' <= s[0] <= 'Z') && s[1] == ':' && (s[2] == '/'
            || s[2] == '\\') ==> (parse_path(s) matches Some(path) && path.root
            == (PathRoot::Windows { drive: s[0] })),
        parse_path(s) matches Some(path) ==> match path.root {
            PathRoot::Unix => s.len() >= 1 && s[0] == '/',
            PathRoot::Windows { drive } => {
                &&& s.len() >= 3
                &&& s[0] == drive
                &&& 'a' <= drive <= 'z' || 'A' <= drive <= 'Z'
                &&& s[1] == ':'
                &&& s[2] == '/' || s[2] == '\\'
            },
        },
{
}

/// A written path is read component by component. A root alone denotes itself; a component that
/// follows the root, or follows further text behind a separator, leads on from what stands before
/// it: nothing at all, or a dot, leads nowhere else, two dots lead to the parent, and nowhere else
/// from a root, and a name leads to the entry of that name. Slashes separate on every platform,
/// backslashes behind a drive only.
pub proof fn paths_are_read_component_by_component(
    s: Seq<char>,
    separator: char,
    component: Seq<char>,
)
    requires
        parse_path(s) is Some,
        separator == '/' || (separator == '\\' && parse_path(s)->0.root is Windows),
        forall|i: int|
            0 <= i < component.len() ==> #[trigger] component[i] != '/' && (component[i] == '\\'
                ==> parse_path(s)->0.root is Unix),
    ensures
        ({
            let before = parse_path(s)->0;
            let after = parse_path(s.push(separator) + component);
            let count = before.components.len();
            &&& after is Some
            &&& after->0.root == before.root
            &&& component.len() == 0 || component == seq!['.'] ==> after->0.components
                == before.components
            &&& component == seq!['.', '.'] && count == 0 ==> after->0.components.len() == 0
            &&& component == seq!['.', '.'] && count > 0 ==> after->0.components
                == before.components.take(count - 1)
            &&& component.len() > 0 && component != seq!['.'] && component != seq!['.', '.']
                ==> after->0.components == before.components.push(component)
        }),
        s.len() == parse_path(s)->0.root.text().len() ==> {
            &&& parse_path(s)->0.components.len() == 0
            &&& parse_path(s + component) == parse_path(s.push(separator) + component)
        },
{
    let path = parse_path(s)->0;
    let (root, len) = leading_root(s)->0;
    let backslash = root.backslash();
    let body = s.skip(len);
    let whole = s.push(separator) + component;
    assert(text::separator_free(component, backslash));
    assert(leading_root(whole) == Some((root, len)));
    assert(whole.skip(len) =~= body.push(separator) + component);
    text::lemma_split_append_piece(body, separator, component, backslash);
    lemma_resolve_one_more(text::split(body, backslash), component);
    if s.len() == root.text().len() {
        assert(body =~= Seq::empty());
        text::lemma_split_of_piece(body, backslash);
        text::lemma_split_of_piece(component, backslash);
        let none = Seq::<Seq<char>>::empty();
        assert(seq![body] =~= none.push(body));
        assert(seq![component] =~= none.push(component));
        lemma_resolve_one_more(none, body);
        lemma_resolve_one_more(none, component);
        let joined = s + component;
        assert(leading_root(joined) == Some((root, len)));
        assert(joined.skip(len) =~= component);
    }
}

proof fn lemma_resolve_one_more(components: Seq<Seq<char>>, component: Seq<char>)
    ensures
        resolve(components.push(component)) == if component.len() == 0 || component == seq!['.'] {
            resolve(components)
        } else if component == seq!['.', '.'] {
            if resolve(components).len() == 0 {
                resolve(components)
            } else {
                resolve(components).take(resolve(components).len() - 1)
            }
        } else {
            resolve(components).push(component)
        },
{
    assert(components.push(component).drop_last() =~= components);
    assert(seq!['.'].len() == 1 && seq!['.', '.'].len() == 2);
    let before = resolve(components);
    if before.len() > 0 {
        assert(before.drop_last() =~= before.take(before.len() - 1));
    }
}

/// Every parsed path is valid.
pub proof fn parsed_path_is_valid(s: Seq<char>)
    ensures
        parse_path(s) matches Some(path) ==> path.valid(),
{
    if let Some((root, len)) = leading_root(s) {
        let pieces = text::split(s.skip(len), root.backslash());
        text::lemma_split_separator_free(s.skip(len), root.backslash());
        lemma_resolve(pieces);
        assert forall|i: int| 0 <= i < resolve(pieces).len() implies text::separator_free(
            #[trigger] resolve(pieces)[i],
            root.backslash(),
        ) by {
            let k = choose|k: int| 0 <= k < pieces.len() && pieces[k] == resolve(pieces)[i];
            assert(text::separator_free(pieces[k], root.backslash()));
        }
    }
}

/// A written path denotes the path it was written from.
pub proof fn path_text_round_trips(path: PathView)
    requires
        path.valid(),
    ensures
        parse_path(path.text()) == Some(path),
{
    let s = path.text();
    let len = path.root.text().len() as int;
    let body = text::join(path.components, path.root.separator());
    assert(leading_root(s) == Some((path.root, len)));
    assert(s.skip(len) =~= body);
    if path.components.len() == 0 {
        let pieces = text::split(body, path.root.backslash());
        assert(pieces =~= seq![Seq::<char>::empty()]);
        assert(resolve(pieces.drop_last()) =~= Seq::empty());
        assert(resolve(pieces) =~= path.components);
    } else {
        text::lemma_split_of_join(path.components, path.root.separator(), path.root.backslash());
        lemma_resolve_names(path.components);
    }
}

/// Two paths that are written alike are the same path.
pub proof fn path_text_is_injective(a: PathView, b: PathView)
    requires
        a.valid(),
        b.valid(),
        a.text() == b.text(),
    ensures
        a == b,
{
    path_text_round_trips(a);
    path_text_round_trips(b);
}

/// Why a text is not a [`StandardizedPath`].
#[derive(Debug, Clone, Copy, PartialEq, Eq, Structural)]
pub enum InvalidPathError {
    /// The text does not start at a root, or not at one of the expected encoding.
    NotAbsolute,
    /// The path cannot be written as text.
    NotUnicode,
}

impl InvalidPathError {
    /// The words that report the error.
    pub open spec fn text(self) -> Seq<char> {
        match self {
            InvalidPathError::NotAbsolute => "path is not absolute"@,
            InvalidPathError::NotUnicode => "path is not valid Unicode"@,
        }
    }

    /// The error in words.
    pub fn message(&self) -> (message: String)
        ensures
            message@ == self.text(),
    {
        match self {
            InvalidPathError::NotAbsolute => "path is not absolute".to_owned(),
            InvalidPathError::NotUnicode => "path is not valid Unicode".to_owned(),
        }
    }
}

/// An absolute path in normal form, independent of the platform that handles it.
#[derive(Debug)]
pub struct StandardizedPath {
    root: PathRoot,
    components: Vec<String>,
    written: String,
}

impl View for StandardizedPath {
    type V = PathView;

    closed spec fn view(&self) -> PathView {
        PathView { root: self.root, components: text::texts(self.components@) }
    }
}

impl StandardizedPath {
    /// Holds of every path.
    #[verifier::type_invariant]
    pub open spec fn well_formed(&self) -> bool {
        &&& self@.valid()
        &&& self.keeps_its_text()
    }

    pub closed spec fn keeps_its_text(&self) -> bool {
        self.written@ == self@.text()
    }

    /// The path denoted by `s`, which must be absolute.
    pub fn try_new(s: &str) -> (path: Result<StandardizedPath, InvalidPathError>)
        ensures
            match path {
                Ok(path) => parse_path(s@) == Some(path@),
                Err(error) => parse_path(s@) is None && error == InvalidPathError::NotAbsolute,
            },
    {
        let len: usize = s.unicode_len();
        if len >= 1 && s.get_char(0) == '/' {
            return Ok(StandardizedPath::below(PathRoot::Unix, s.substring_char(1, len)));
        }
        if len >= 3 {
            let drive: char = s.get_char(0);
            let letter = ('a' <= drive && drive <= 'z') || ('A' <= drive && drive <= 'Z');
            if letter && s.get_char(1) == ':' && (s.get_char(2) == '/' || s.get_char(2) == '\\') {
                return Ok(
                    StandardizedPath::below(
                        PathRoot::Windows { drive },
                        s.substring_char(3, len),
                    ),
                );
            }
        }
        Err(InvalidPathError::NotAbsolute)
    }

    /// The path denoted by `s` on a machine whose own paths are written in `local`.
    pub fn try_from_local(s: &str, local: PathEncoding) -> (path: Result<
        StandardizedPath,
        InvalidPathError,
    >)
        ensures
            match path {
                Ok(path) => parse_path(s@) == Some(path@) && path@.root.spec_encoding() == local,
                Err(error) => {
                    &&& parse_path(s@) is None || parse_path(s@)->0.root.spec_encoding() != local
                    &&& error == InvalidPathError::NotAbsolute
                },
            },
    {
        let path = StandardizedPath::try_new(s)?;
        if path.encoding() == local {
            Ok(path)
        } else {
            Err(InvalidPathError::NotAbsolute)
        }
    }

    /// Builds the path from its root and the text that follows the root.
    fn below(root: PathRoot, rest: &str) -> (path: StandardizedPath)
        requires
            root.valid(),
        ensures
            path@.root == root,
            path@.components == resolve(text::split(rest@, root.backslash())),
    {
        let backslash: bool = match root {
            PathRoot::Unix => false,
            PathRoot::Windows { .. } => true,
        };
        let pieces: Vec<String> = text::split_text(rest, backslash);
        let mut components: Vec<String> = Vec::new();
        let mut i: usize = 0;
        proof {
            text::lemma_split_separator_free(rest@, backslash);
            assert(text::texts(pieces@).take(0) =~= Seq::empty());
            assert(text::texts(components@) =~= Seq::empty());
            reveal_strlit(".");
            reveal_strlit("..");
            assert("."@ =~= seq!['.']);
            assert(".."@ =~= seq!['.', '.']);
        }
        while i < pieces.len()
            invariant
                i <= pieces.len(),
                "."@ == seq!['.'],
                ".."@ == seq!['.', '.'],
                text::texts(components@) == resolve(text::texts(pieces@).take(i as int)),
            decreases pieces.len() - i,
        {
            let ghost seen = text::texts(pieces@).take(i as int);
            let ghost before = text::texts(components@);
            proof {
                assert(text::texts(pieces@).take(i + 1).drop_last() =~= seen);
                assert(text::texts(pieces@).take(i + 1).last() == pieces@[i as int]@);
            }
            let piece: &str = pieces[i].as_str();
            if text::same_text(piece, "..") {
                if components.len() > 0 {
                    components.pop();
                    assert(text::texts(components@) =~= before.drop_last());
                }
            } else if !piece.is_empty() && !text::same_text(piece, ".") {
                components.push(piece.to_owned());
                assert(text::texts(components@) =~= before.push(piece@));
            }
            i = i + 1;
        }
        proof {
            assert(text::texts(pieces@).take(pieces@.len() as int) =~= text::texts(pieces@));
            let names = text::texts(pieces@);
            lemma_resolve(names);
            assert forall|k: int| 0 <= k < resolve(names).len() implies text::separator_free(
                #[trigger] resolve(names)[k],
                backslash,
            ) by {
                let m = choose|m: int| 0 <= m < names.len() && names[m] == resolve(names)[k];
                assert(text::separator_free(names[m], backslash));
            }
        }
        StandardizedPath::assemble(root, components)
    }

    /// Builds the path from a root and ordinary names.
    fn assemble(root: PathRoot, components: Vec<String>) -> (path: StandardizedPath)
        requires
            (PathView { root, components: text::texts(components@) }).valid(),
        ensures
            path@.root == root,
            path@.components == text::texts(components@),
    {
        let mut written: String = root.written();
        let separator: &str = match root {
            PathRoot::Unix => "/",
            PathRoot::Windows { .. } => "\\",
        };
        let ghost names = text::texts(components@);
        proof {
            reveal_strlit("/");
            reveal_strlit("\\");
            assert(separator@ =~= seq![root.separator()]);
            assert(names.take(0) =~= Seq::empty());
            assert(written@ =~= root.text() + text::join(names.take(0), root.separator()));
        }
        let mut i: usize = 0;
        while i < components.len()
            invariant
                i <= components.len(),
                names == text::texts(components@),
                separator@ == seq![root.separator()],
                written@ == root.text() + text::join(names.take(i as int), root.separator()),
            decreases components.len() - i,
        {
            let ghost before = written@;
            if i > 0 {
                written.append(separator);
            }
            written.append(components[i].as_str());
            proof {
                assert(names.take(i + 1).drop_last() =~= names.take(i as int));
                if i == 0 {
                    assert(names.take(1)[0] == components@[0]@);
                    assert(written@ =~= root.text() + text::join(names.take(1), root.separator()));
                } else {
                    assert(names.take(i + 1).last() == components@[i as int]@);
                    assert(written@ =~= root.text() + text::join(
                        names.take(i + 1),
                        root.separator(),
                    ));
                }
            }
            i = i + 1;
        }
        proof {
            assert(names.take(components@.len() as int) =~= names);
        }
        StandardizedPath { root, components, written }
    }

    /// The platform family that the path is written for.
    pub fn encoding(&self) -> (encoding: PathEncoding)
        ensures
            encoding == self@.root.spec_encoding(),
    {
        match self.root {
            PathRoot::Unix => PathEncoding::Unix,
            PathRoot::Windows { .. } => PathEncoding::Windows,
        }
    }

    /// The path as it is written.
    pub fn as_str(&self) -> (s: &str)
        ensures
            s@ == self@.text(),
            self@.valid(),
    {
        proof {
            use_type_invariant(self);
        }
        self.written.as_str()
    }

    /// The path as it is written, owned.
    pub fn to_string(&self) -> (s: String)
        ensures
            s@ == self@.text(),
            self@.valid(),
    {
        proof {
            use_type_invariant(self);
        }
        self.written.clone()
    }

    /// The last component; `None` for a root.
    pub fn file_name(&self) -> (name: Option<&str>)
        ensures
            match name {
                Some(name) => self@.file_name() == Some(name@),
                None => self@.file_name() is None,
            },
    {
        let len: usize = self.components.len();
        if len == 0 {
            None
        } else {
            Some(self.components[len - 1].as_str())
        }
    }

    /// The path without its last component; `None` for a root.
    pub fn parent(&self) -> (parent: Option<StandardizedPath>)
        ensures
            match parent {
                Some(parent) => self@.parent() == Some(parent@),
                None => self@.parent() is None,
            },
    {
        proof {
            use_type_invariant(self);
        }
        if self.components.len() == 0 {
            None
        } else {
            let mut components: Vec<String> = self.components.clone();
            components.pop();
            proof {
                assert(text::texts(components@) =~= self@.components.drop_last());
                let shorter = PathView { root: self.root, components: text::texts(components@) };
                assert forall|i: int| 0 <= i < shorter.components.len() implies is_name(
                    #[trigger] shorter.components[i],
                ) && text::separator_free(shorter.components[i], self.root.backslash()) by {
                    assert(shorter.components[i] == self@.components[i]);
                }
            }
            Some(StandardizedPath::assemble(self.root, components))
        }
    }

    /// The path of the entry called `name` in this directory; `None` where nothing can have that
    /// name.
    pub fn child(&self, name: &str) -> (child: Option<StandardizedPath>)
        ensures
            match child {
                Some(child) => {
                    &&& is_name(name@) && text::separator_free(name@, self@.root.backslash())
                    &&& child@ == self@.child(name@)
                },
                None => !is_name(name@) || !text::separator_free(
                    name@,
                    self@.root.backslash(),
                ),
            },
    {
        proof {
            use_type_invariant(self);
            reveal_strlit(".");
            reveal_strlit("..");
            assert("."@ =~= seq!['.']);
            assert(".."@ =~= seq!['.', '.']);
        }
        if name.is_empty() || text::same_text(name, ".") || text::same_text(name, "..") {
            return None;
        }
        let backslash: bool = match self.root {
            PathRoot::Unix => false,
            PathRoot::Windows { .. } => true,
        };
        let len: usize = name.unicode_len();
        let mut i: usize = 0;
        while i < len
            invariant
                i <= len,
                len == name@.len(),
                backslash == self@.root.backslash(),
                forall|k: int| 0 <= k < i ==> !text::separates(backslash, #[trigger] name@[k]),
            decreases len - i,
        {
            let c = name.get_char(i);
            if c == '/' || (backslash && c == '\\') {
                assert(text::separates(backslash, name@[i as int]));
                return None;
            }
            i = i + 1;
        }
        let mut components: Vec<String> = self.components.clone();
        assert(text::texts(components@) =~= self@.components);
        components.push(name.to_owned());
        proof {
            assert(text::texts(components@) =~= self@.components.push(name@));
            let longer = self@.child(name@);
            assert forall|k: int| 0 <= k < longer.components.len() implies is_name(
                #[trigger] longer.components[k],
            ) && text::separator_free(longer.components[k], self.root.backslash()) by {
                if k < self@.components.len() {
                    assert(longer.components[k] == self@.components[k]);
                }
            }
        }
        Some(StandardizedPath::assemble(self.root, components))
    }

    /// The extension of the file name.
    pub fn extension(&self) -> (extension: Option<&str>)
        ensures
            match extension {
                Some(extension) => self@.extension() == Some(extension@),
                None => self@.extension() is None,
            },
    {
        match self.file_name() {
            None => None,
            Some(name) => {
                let len: usize = name.unicode_len();
                let mut end: usize = len;
                assert(name@.take(len as int) =~= name@);
                while end > 0
                    invariant
                        end <= len,
                        len == name@.len(),
                        self@.file_name() == Some(name@),
                        text::last_position(name@, '.') == text::last_position(
                            name@.take(end as int),
                            '.',
                        ),
                    decreases end,
                {
                    assert(name@.take(end as int).drop_last() =~= name@.take(end - 1));
                    if name.get_char(end - 1) == '.' {
                        if end == 1 {
                            return None;
                        }
                        assert(name@.subrange(end as int, len as int) =~= name@.skip(end as int));
                        return Some(name.substring_char(end, len));
                    }
                    end = end - 1;
                }
                None
            },
        }
    }

    /// Whether this path lies below `ancestor`, at any depth but not at `ancestor` itself.
    pub fn is_strictly_below(&self, ancestor: &StandardizedPath) -> (below: bool)
        ensures
            below == self@.strictly_below(ancestor@),
    {
        let len: usize = ancestor.components.len();
        if self.root != ancestor.root || self.components.len() <= len {
            return false;
        }
        let mut i: usize = 0;
        while i < len
            invariant
                i <= len,
                len == ancestor.components@.len(),
                len < self.components@.len(),
                forall|k: int|
                    0 <= k < i ==> #[trigger] self@.components[k] == ancestor@.components[k],
            decreases len - i,
        {
            if self.components[i] != ancestor.components[i] {
                assert(self@.components.take(len as int)[i as int] != ancestor@.components[i as int]);
                return false;
            }
            assert(self@.components[i as int] == ancestor@.components[i as int]);
            i = i + 1;
        }
        assert(self@.components.take(len as int) =~= ancestor@.components);
        true
    }

    /// The text by which a machine whose paths are written in `local` reaches this path; `None`
    /// where the path is written for another platform family.
    pub fn to_local_path(&self, local: PathEncoding) -> (s: Option<String>)
        ensures
            match s {
                Some(s) => self@.root.spec_encoding() == local && s@ == self@.text(),
                None => self@.root.spec_encoding() != local,
            },
    {
        if self.encoding() == local {
            Some(self.to_string())
        } else {
            None
        }
    }
}

impl PathRoot {
    fn written(self) -> (s: String)
        ensures
            s@ == self.text(),
    {
        match self {
            PathRoot::Unix => {
                proof {
                    reveal_strlit("/");
                }
                let s: String = "/".to_owned();
                assert(s@ =~= self.text());
                s
            },
            PathRoot::Windows { drive } => {
                let mut s: String = String::new();
                s.push(drive);
                proof {
                    reveal_strlit(":\\");
                }
                s.append(":\\");
                assert(s@ =~= self.text());
                s
            },
        }
    }
}

impl Clone for StandardizedPath {
    fn clone(&self) -> (path: Self)
        ensures
            path@ == self@,
    {
        proof {
            use_type_invariant(self);
        }
        let components: Vec<String> = self.components.clone();
        assert(text::texts(components@) =~= self@.components);
        StandardizedPath { root: self.root, components, written: self.written.clone() }
    }
}

impl vstd::std_specs::cmp::PartialEqSpecImpl for StandardizedPath {
    open spec fn obeys_eq_spec() -> bool {
        true
    }

    open spec fn eq_spec(&self, other: &Self) -> bool {
        self@ == other@
    }
}

impl PartialEq for StandardizedPath {
    fn eq(&self, other: &Self) -> (same: bool) {
        proof {
            use_type_invariant(self);
            use_type_invariant(other);
            if self@.text() == other@.text() {
                path_text_is_injective(self@, other@);
            }
        }
        self.written == other.written
    }
}

impl Eq for StandardizedPath {

}

} // verus!
