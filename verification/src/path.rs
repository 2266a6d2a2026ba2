//! Paths as texts, with a slash between their components.
//!
//! Windows has two more things: a backslash is a separator too, and a path may
//! start with a drive, `C:/w`, or with a share, `//server/share/w`. Where that
//! matters, the style of the paths is told.

use vstd::prelude::*;

use crate::text;

verus! {

/// How paths are written.
#[derive(Debug, Clone, Copy, PartialEq, Eq)]
pub enum Style {
    /// With slashes, from one on if they are absolute.
    Unix,
    /// With slashes or backslashes, and maybe a drive or a share in front.
    Windows,
}

/// One component of a path.
#[derive(Debug, PartialEq, Eq)]
pub enum Component {
    /// A drive, by its capital letter.
    Drive(char),
    /// A share of a server.
    Share(String, String),
    /// The slash that an absolute path starts with.
    Root,
    /// A `.` that a path starts with.
    Current,
    /// A `..`.
    Parent,
    /// A name.
    Normal(String),
}

/// What a `Component` holds.
#[verifier::ext_equal]
pub enum ComponentView {
    /// See `Component::Drive`.
    Drive(char),
    /// See `Component::Share`.
    Share(Seq<char>, Seq<char>),
    /// See `Component::Root`.
    Root,
    /// See `Component::Current`.
    Current,
    /// See `Component::Parent`.
    Parent,
    /// See `Component::Normal`.
    Normal(Seq<char>),
}

impl View for Component {
    type V = ComponentView;

    open spec fn view(&self) -> ComponentView {
        match self {
            Component::Drive(letter) => ComponentView::Drive(*letter),
            Component::Share(server, share) => ComponentView::Share(server@, share@),
            Component::Root => ComponentView::Root,
            Component::Current => ComponentView::Current,
            Component::Parent => ComponentView::Parent,
            Component::Normal(name) => ComponentView::Normal(name@),
        }
    }
}

impl ComponentView {
    /// The component as it is spelled.
    pub open spec fn spelled(self) -> Seq<char> {
        match self {
            ComponentView::Drive(letter) => seq![letter, ':'],
            ComponentView::Share(server, share) => seq!['/', '/'] + server + seq!['/'] + share,
            ComponentView::Root => seq!['/'],
            ComponentView::Current => seq!['.'],
            ComponentView::Parent => seq!['.', '.'],
            ComponentView::Normal(name) => name,
        }
    }
}

/// What several `Component`s hold.
pub open spec fn components_view(components: Seq<Component>) -> Seq<ComponentView> {
    components.map_values(|component: Component| component@)
}

/// The components that the pieces between slashes stand for. An empty piece and
/// a `.` stand for none.
pub open spec fn piece_components(pieces: Seq<Seq<char>>) -> Seq<ComponentView>
    decreases pieces.len(),
{
    if pieces.len() == 0 {
        Seq::empty()
    } else {
        let rest = piece_components(pieces.drop_last());
        let piece = pieces.last();
        if piece.len() == 0 || piece == seq!['.'] {
            rest
        } else if piece == seq!['.', '.'] {
            rest.push(ComponentView::Parent)
        } else {
            rest.push(ComponentView::Normal(piece))
        }
    }
}

/// The components of a path: its root if it is absolute, a `.` if it starts
/// with one, and what its pieces stand for.
pub open spec fn components(path: Seq<char>) -> Seq<ComponentView> {
    let pieces = text::split(path, '/');
    let start = if path.len() > 0 && path[0] == '/' {
        seq![ComponentView::Root]
    } else if pieces[0] == seq!['.'] {
        seq![ComponentView::Current]
    } else {
        Seq::empty()
    };
    start + piece_components(pieces)
}

/// Whether a text is one dot.
fn is_dot(piece: &Vec<char>) -> (r: bool)
    ensures
        r == (piece@ == seq!['.']),
{
    if piece.len() == 1 && piece[0] == '.' {
        assert(piece@ == seq!['.']);
        true
    } else {
        false
    }
}

/// Whether a text is two dots.
fn is_dots(piece: &Vec<char>) -> (r: bool)
    ensures
        r == (piece@ == seq!['.', '.']),
{
    if piece.len() == 2 && piece[0] == '.' && piece[1] == '.' {
        assert(piece@ == seq!['.', '.']);
        true
    } else {
        false
    }
}

/// Adds the components that pieces stand for, from one of them on.
fn add_pieces(out: &mut Vec<Component>, pieces: &Vec<String>, from: usize)
    requires
        from <= pieces.len(),
    ensures
        components_view(final(out)@) == components_view(old(out)@) + piece_components(
            text::views(pieces@).skip(from as int),
        ),
{
    let ghost start = components_view(out@);
    let ghost views = text::views(pieces@).skip(from as int);
    let mut i: usize = from;
    assert(views.take(0) == Seq::<Seq<char>>::empty());
    assert(start + Seq::<ComponentView>::empty() == start);
    while i < pieces.len()
        invariant
            from <= i <= pieces.len(),
            views == text::views(pieces@).skip(from as int),
            components_view(out@) == start + piece_components(views.take(i - from)),
        decreases pieces.len() - i,
    {
        let ghost seen = piece_components(views.take(i - from));
        let ghost before = out@;
        assert(views.take(i - from + 1).drop_last() == views.take(i - from));
        assert(views.take(i - from + 1).last() == pieces@[i as int]@);
        let piece = text::chars(&pieces[i]);
        if piece.len() == 0 || is_dot(&piece) {
        } else if is_dots(&piece) {
            out.push(Component::Parent);
            assert(components_view(out@) == components_view(before).push(ComponentView::Parent));
            assert((start + seen).push(ComponentView::Parent) == start + seen.push(
                ComponentView::Parent,
            ));
        } else {
            out.push(Component::Normal(pieces[i].clone()));
            let ghost name = ComponentView::Normal(pieces@[i as int]@);
            assert(components_view(out@) == components_view(before).push(name));
            assert((start + seen).push(name) == start + seen.push(name));
        }
        i += 1;
    }
    assert(views.take(i - from) == views);
}

/// Adds the components of a path.
fn add_components(out: &mut Vec<Component>, path: &str)
    ensures
        components_view(final(out)@) == components_view(old(out)@) + components(path@),
{
    let all = text::chars(path);
    let pieces = text::split_at(&all, '/');
    let ghost views = text::split(path@, '/');
    proof {
        text::lemma_split_some(path@, '/');
    }
    let ghost before = components_view(out@);
    assert(views[0] == pieces@[0]@);
    let ghost start = if path@.len() > 0 && path@[0] == '/' {
        seq![ComponentView::Root]
    } else if views[0] == seq!['.'] {
        seq![ComponentView::Current]
    } else {
        Seq::empty()
    };
    if all.len() > 0 && all[0] == '/' {
        out.push(Component::Root);
    } else if is_dot(&text::chars(&pieces[0])) {
        out.push(Component::Current);
    }
    assert(components_view(out@) == before + start);
    add_pieces(out, &pieces, 0);
    assert(views.skip(0) == views);
    assert((before + start) + piece_components(views) == before + (start + piece_components(
        views,
    )));
}

/// Splits a path into its components.
pub fn components_of(path: &str) -> (out: Vec<Component>)
    ensures
        components_view(out@) == components(path@),
{
    let mut out: Vec<Component> = Vec::new();
    add_components(&mut out, path);
    assert(components_view(Seq::<Component>::empty()) + components(path@) == components(path@));
    out
}

/// Whether a letter can name a drive.
pub open spec fn names_a_drive(letter: char) -> bool {
    ('a' <= letter && letter <= 'z') || ('A' <= letter && letter <= 'Z')
}

/// The capital letter of a drive.
pub open spec fn capital(letter: char) -> char {
    if 'a' <= letter && letter <= 'z' {
        ((letter as u8) - 32) as u8 as char
    } else {
        letter
    }
}

/// Whether a path starts with a drive.
pub open spec fn has_drive(path: Seq<char>) -> bool {
    path.len() >= 2 && names_a_drive(path[0]) && path[1] == ':'
}

/// Whether a path starts with a share: two slashes, the name of a server, and the
/// name of a share.
pub open spec fn has_share(path: Seq<char>) -> bool {
    let pieces = text::split(path, '/');
    pieces.len() >= 4 && pieces[0].len() == 0 && pieces[1].len() == 0 && pieces[2].len() > 0
        && pieces[3].len() > 0
}

/// How many characters the drive or the share takes up that a Windows path with
/// slashes starts with.
pub open spec fn prefix_length(path: Seq<char>) -> nat {
    let pieces = text::split(path, '/');
    if has_drive(path) {
        2
    } else if has_share(path) {
        pieces[2].len() + pieces[3].len() + 3
    } else {
        0
    }
}

/// The components of a path of some style. A drive and a share are one component
/// each; a path on a share is absolute.
pub open spec fn parts(style: Style, path: Seq<char>) -> Seq<ComponentView> {
    match style {
        Style::Unix => components(path),
        Style::Windows => {
            let path = text::slashed(path);
            let pieces = text::split(path, '/');
            if has_drive(path) {
                seq![ComponentView::Drive(capital(path[0]))] + components(path.skip(2))
            } else if has_share(path) {
                seq![ComponentView::Share(pieces[2], pieces[3]), ComponentView::Root]
                    + piece_components(pieces.skip(4))
            } else {
                components(path)
            }
        },
    }
}

/// The capital letter of a drive.
fn to_capital(letter: char) -> (out: char)
    ensures
        out == capital(letter),
{
    if 'a' <= letter && letter <= 'z' {
        ((letter as u8) - 32) as char
    } else {
        letter
    }
}

/// Whether a path starts with a drive.
fn starts_with_drive(path: &Vec<char>) -> (r: bool)
    ensures
        r == has_drive(path@),
{
    path.len() >= 2 && (('a' <= path[0] && path[0] <= 'z') || ('A' <= path[0] && path[0] <= 'Z'))
        && path[1] == ':'
}

/// Whether the pieces between slashes start with a share.
fn starts_with_share(pieces: &Vec<String>) -> (r: bool)
    ensures
        forall|path: Seq<char>| #[trigger]
            text::split(path, '/') == text::views(pieces@) ==> r == has_share(path),
{
    let ghost views = text::views(pieces@);
    if pieces.len() < 4 {
        return false;
    }
    assert(views[0] == pieces@[0]@ && views[1] == pieces@[1]@ && views[2] == pieces@[2]@
        && views[3] == pieces@[3]@);
    text::chars(&pieces[0]).len() == 0 && text::chars(&pieces[1]).len() == 0 && text::chars(
        &pieces[2],
    ).len() > 0 && text::chars(&pieces[3]).len() > 0
}

/// How many characters the drive or the share takes up that a path starts with.
fn measure_prefix(path: &str) -> (out: usize)
    ensures
        out == prefix_length(path@),
        out <= path@.len(),
{
    let all = text::chars(path);
    if starts_with_drive(&all) {
        return 2;
    }
    let pieces = text::split_at(&all, '/');
    if starts_with_share(&pieces) {
        let ghost views = text::views(pieces@);
        assert(views[2] == pieces@[2]@ && views[3] == pieces@[3]@);
        proof {
            lemma_share_fits(path@);
        }
        let server: usize = text::chars(&pieces[2]).len();
        let share: usize = text::chars(&pieces[3]).len();
        assert(server + share + 3 <= all.len());
        server + share + 3
    } else {
        0
    }
}

/// Splits a path of some style into its components.
pub fn parts_of(style: Style, path: &str) -> (out: Vec<Component>)
    ensures
        components_view(out@) == parts(style, path@),
{
    match style {
        Style::Unix => components_of(path),
        Style::Windows => {
            let path = text::with_slashes(path);
            let all = text::chars(&path);
            let pieces = text::split_at(&all, '/');
            let mut out: Vec<Component> = Vec::new();
            if starts_with_drive(&all) {
                out.push(Component::Drive(to_capital(all[0])));
                assert(components_view(out@) == seq![ComponentView::Drive(capital(path@[0]))]);
                let rest = text::slice(&all, 2, all.len());
                assert(rest@ == path@.skip(2));
                add_components(&mut out, &rest);
                out
            } else if starts_with_share(&pieces) {
                let ghost views = text::views(pieces@);
                assert(views[2] == pieces@[2]@ && views[3] == pieces@[3]@);
                out.push(Component::Share(pieces[2].clone(), pieces[3].clone()));
                out.push(Component::Root);
                assert(components_view(out@) == seq![
                    ComponentView::Share(views[2], views[3]),
                    ComponentView::Root,
                ]);
                add_pieces(&mut out, &pieces, 4);
                out
            } else {
                components_of(&path)
            }
        },
    }
}

/// A path behind a base: itself if it is absolute, else the base, a slash if
/// one is needed, and the path.
pub open spec fn joined(base: Seq<char>, path: Seq<char>) -> Seq<char> {
    if path.len() > 0 && path[0] == '/' {
        path
    } else if base.len() > 0 && base.last() != '/' {
        base.push('/') + path
    } else {
        base + path
    }
}

/// Puts a path behind a base.
pub fn join(base: &str, path: &str) -> (out: String)
    ensures
        out@ == joined(base@, path@),
{
    let first = text::chars(base);
    let second = text::chars(path);
    if second.len() > 0 && second[0] == '/' {
        return path.to_owned();
    }
    let mut out = base.to_owned();
    if first.len() > 0 && first[first.len() - 1] != '/' {
        out.push('/');
    }
    out.append(path);
    out
}

/// A path of some style behind a base. On Windows a path with a drive or a share
/// stands for itself, one that starts with a slash follows the drive or the share
/// of the base, and nothing separates a path from a bare drive.
pub open spec fn joined_in(style: Style, base: Seq<char>, path: Seq<char>) -> Seq<char> {
    match style {
        Style::Unix => joined(base, path),
        Style::Windows => {
            let base = text::slashed(base);
            let path = text::slashed(path);
            if prefix_length(path) > 0 {
                path
            } else if path.len() > 0 && path[0] == '/' {
                base.take(prefix_length(base) as int) + path
            } else if has_drive(base) && base.len() == 2 {
                base + path
            } else {
                joined(base, path)
            }
        },
    }
}

/// Puts a path of some style behind a base.
pub fn join_in(style: Style, base: &str, path: &str) -> (out: String)
    ensures
        out@ == joined_in(style, base@, path@),
{
    match style {
        Style::Unix => join(base, path),
        Style::Windows => {
            let base = text::with_slashes(base);
            let path = text::with_slashes(path);
            let first = text::chars(&base);
            let second = text::chars(&path);
            if measure_prefix(&path) > 0 {
                path
            } else if second.len() > 0 && second[0] == '/' {
                let length: usize = measure_prefix(&base);
                let mut out = text::slice(&first, 0, length);
                assert(out@ == base@.take(length as int));
                out.append(&path);
                out
            } else if starts_with_drive(&first) && first.len() == 2 {
                let mut out = base;
                out.append(&path);
                out
            } else {
                join(&base, &path)
            }
        },
    }
}

/// A path without the slashes and the `.` components at its end, but with its
/// root.
pub open spec fn trimmed(path: Seq<char>) -> Seq<char>
    decreases path.len(),
{
    if path.len() >= 2 && (path.last() == '/' || (path.last() == '.' && path[path.len() - 2]
        == '/')) {
        trimmed(path.drop_last())
    } else {
        path
    }
}

/// A path up to its last slash, and with it.
pub open spec fn up_to_slash(path: Seq<char>) -> Seq<char>
    decreases path.len(),
{
    if path.len() == 0 || path.last() == '/' {
        path
    } else {
        up_to_slash(path.drop_last())
    }
}

/// A path without its last component. The root has no parent, nor has an empty
/// path.
pub open spec fn parent(path: Seq<char>) -> Option<Seq<char>> {
    let trim = trimmed(path);
    if trim.len() == 0 || trim == seq!['/'] {
        None
    } else {
        Some(trimmed(up_to_slash(trim)))
    }
}

/// The last component of a path, if it is a name.
pub open spec fn file_name(path: Seq<char>) -> Option<Seq<char>> {
    let trim = trimmed(path);
    let name = trim.skip(up_to_slash(trim).len() as int);
    if name.len() == 0 || name == seq!['.'] || name == seq!['.', '.'] {
        None
    } else {
        Some(name)
    }
}

/// The directory that a file is in: its parent, or `.` for a bare name.
pub open spec fn directory(file: Seq<char>) -> Seq<char> {
    match parent(file) {
        Some(dir) => if dir.len() == 0 {
            seq!['.']
        } else {
            dir
        },
        None => seq!['.'],
    }
}

/// The directory that a file of some style is in. On Windows the drive stays: it
/// is the parent of a bare name on it.
pub open spec fn directory_in(style: Style, file: Seq<char>) -> Seq<char> {
    match style {
        Style::Unix => directory(file),
        Style::Windows => {
            let file = text::slashed(file);
            if has_drive(file) {
                match parent(file.skip(2)) {
                    Some(dir) => file.take(2) + dir,
                    None => seq!['.'],
                }
            } else {
                directory(file)
            }
        },
    }
}

/// The last component of a path of some style, if it is a name.
pub open spec fn file_name_in(style: Style, path: Seq<char>) -> Option<Seq<char>> {
    match style {
        Style::Unix => file_name(path),
        Style::Windows => {
            let path = text::slashed(path);
            if has_drive(path) {
                file_name(path.skip(2))
            } else {
                file_name(path)
            }
        },
    }
}

/// Where the part of a path that is kept after trimming ends.
fn trim_to(path: &Vec<char>, length: usize) -> (out: usize)
    requires
        length <= path.len(),
    ensures
        out <= length,
        path@.take(out as int) == trimmed(path@.take(length as int)),
{
    let mut end: usize = length;
    while end >= 2 && (path[end - 1] == '/' || (path[end - 1] == '.' && path[end - 2] == '/'))
        invariant
            end <= length <= path.len(),
            trimmed(path@.take(end as int)) == trimmed(path@.take(length as int)),
        decreases end,
    {
        assert(path@.take(end as int).drop_last() == path@.take(end - 1));
        end -= 1;
    }
    end
}

/// Where the part of a path up to its last slash ends.
fn slash_end(path: &Vec<char>, length: usize) -> (out: usize)
    requires
        length <= path.len(),
    ensures
        out <= length,
        path@.take(out as int) == up_to_slash(path@.take(length as int)),
{
    let mut end: usize = length;
    while end > 0 && path[end - 1] != '/'
        invariant
            end <= length <= path.len(),
            up_to_slash(path@.take(end as int)) == up_to_slash(path@.take(length as int)),
        decreases end,
    {
        assert(path@.take(end as int).drop_last() == path@.take(end - 1));
        end -= 1;
    }
    end
}

/// A path without its last component.
fn find_parent(path: &str) -> (out: Option<String>)
    ensures
        match out {
            Some(dir) => parent(path@) == Some(dir@),
            None => parent(path@) is None,
        },
{
    let all = text::chars(path);
    assert(all@.take(all@.len() as int) == all@);
    let end: usize = trim_to(&all, all.len());
    let ghost trim = trimmed(path@);
    assert(trim == all@.take(end as int));
    if end == 0 || (end == 1 && all[0] == '/') {
        proof {
            if end == 1 {
                assert(trim == seq!['/']);
            }
        }
        return None;
    }
    assert(trim != seq!['/']) by {
        assert(trim.len() == end);
        assert(trim[0] == all@[0]);
        assert(seq!['/'].len() == 1 && seq!['/'][0] == '/');
    }
    let slash: usize = slash_end(&all, end);
    let stop: usize = trim_to(&all, slash);
    assert(all@.subrange(0, stop as int) == trimmed(up_to_slash(trim)));
    Some(text::slice(&all, 0, stop))
}

/// The text of one dot.
fn dot() -> (out: String)
    ensures
        out@ == seq!['.'],
{
    let mut out = String::new();
    out.push('.');
    assert(out@ == seq!['.']);
    out
}

/// The directory that a file is in, falling back to `.` for a bare name.
pub fn parent_of(file: &str) -> (out: String)
    ensures
        out@ == directory(file@),
{
    match find_parent(file) {
        Some(dir) => if text::chars(&dir).len() == 0 {
            dot()
        } else {
            dir
        },
        None => dot(),
    }
}

/// The directory that a file of some style is in.
pub fn parent_in(style: Style, file: &str) -> (out: String)
    ensures
        out@ == directory_in(style, file@),
{
    match style {
        Style::Unix => parent_of(file),
        Style::Windows => {
            let file = text::with_slashes(file);
            let all = text::chars(&file);
            if starts_with_drive(&all) {
                let rest = text::slice(&all, 2, all.len());
                assert(rest@ == file@.skip(2));
                match find_parent(&rest) {
                    Some(dir) => {
                        let mut out = text::slice(&all, 0, 2);
                        assert(out@ == file@.take(2));
                        out.append(&dir);
                        out
                    },
                    None => dot(),
                }
            } else {
                parent_of(&file)
            }
        },
    }
}

/// Whether the last component of a path is the name `wanted`.
pub fn is_named(path: &str, wanted: &str) -> (r: bool)
    ensures
        r == (file_name(path@) == Some(wanted@)),
{
    let all = text::chars(path);
    assert(all@.take(all@.len() as int) == all@);
    let end: usize = trim_to(&all, all.len());
    let slash: usize = slash_end(&all, end);
    let ghost trim = trimmed(path@);
    let name = text::slice(&all, slash, end);
    assert(name@ == trim.skip(slash as int));
    assert(up_to_slash(trim).len() == slash);
    let letters = text::chars(&name);
    if letters.len() == 0 || is_dot(&letters) || is_dots(&letters) {
        false
    } else {
        text::same(&name, wanted)
    }
}

/// Whether the last component of a path of some style is the name `wanted`.
pub fn is_named_in(style: Style, path: &str, wanted: &str) -> (r: bool)
    ensures
        r == (file_name_in(style, path@) == Some(wanted@)),
{
    match style {
        Style::Unix => is_named(path, wanted),
        Style::Windows => {
            let path = text::with_slashes(path);
            let all = text::chars(&path);
            if starts_with_drive(&all) {
                let rest = text::slice(&all, 2, all.len());
                assert(rest@ == path@.skip(2));
                is_named(&rest, wanted)
            } else {
                is_named(&path, wanted)
            }
        },
    }
}

/// How many components two paths share at their start.
pub open spec fn shared(a: Seq<ComponentView>, b: Seq<ComponentView>) -> nat
    decreases a.len(),
{
    if a.len() > 0 && b.len() > 0 && a[0] == b[0] {
        1 + shared(a.skip(1), b.skip(1))
    } else {
        0
    }
}

/// The names among components, as they are spelled.
pub open spec fn names(components: Seq<ComponentView>) -> Seq<Seq<char>>
    decreases components.len(),
{
    if components.len() == 0 {
        Seq::empty()
    } else {
        match components.last() {
            ComponentView::Normal(name) => names(components.drop_last()).push(name),
            _ => names(components.drop_last()),
        }
    }
}

/// `count` times the component that leads to the parent.
pub open spec fn steps_up(count: int) -> Seq<Seq<char>> {
    Seq::new(count as nat, |i: int| seq!['.', '.'])
}

/// The segments of a file relative to a directory: one step up for every
/// component of the directory that the file does not share, and then its own.
/// Where they share nothing there is no relative form; what names are left
/// stand for it.
pub open spec fn relative_segments(
    root: Seq<ComponentView>,
    file: Seq<ComponentView>,
) -> Seq<Seq<char>> {
    let common = shared(root, file);
    if common == 0 {
        names(file)
    } else {
        steps_up(root.len() - common) + file.skip(common as int).map_values(
            |component: ComponentView| component.spelled(),
        )
    }
}

/// A file as it is known in a workspace: relative to the root of it, with a
/// slash between segments.
pub open spec fn relative(root: Seq<char>, file: Seq<char>) -> Seq<char> {
    text::joined(relative_segments(components(root), components(file)), seq!['/'])
}

/// A file as it is known in a workspace, where paths are of some style.
pub open spec fn relative_in(style: Style, root: Seq<char>, file: Seq<char>) -> Seq<char> {
    text::joined(relative_segments(parts(style, root), parts(style, file)), seq!['/'])
}

/// Whether two components are the same.
fn same_component(a: &Component, b: &Component) -> (r: bool)
    ensures
        r == (a@ == b@),
{
    match (a, b) {
        (Component::Drive(x), Component::Drive(y)) => *x == *y,
        (Component::Share(x, m), Component::Share(y, n)) => text::same(x, y) && text::same(m, n),
        (Component::Root, Component::Root) => true,
        (Component::Current, Component::Current) => true,
        (Component::Parent, Component::Parent) => true,
        (Component::Normal(x), Component::Normal(y)) => text::same(x, y),
        _ => false,
    }
}

/// Spells a component.
fn spell(component: &Component) -> (out: String)
    ensures
        out@ == component@.spelled(),
{
    let mut out = String::new();
    match component {
        Component::Drive(letter) => {
            out.push(*letter);
            out.push(':');
        },
        Component::Share(server, share) => {
            out.push('/');
            out.push('/');
            out.append(server);
            out.push('/');
            out.append(share);
        },
        Component::Root => {
            out.push('/');
        },
        Component::Current => {
            out.push('.');
        },
        Component::Parent => {
            out.push('.');
            out.push('.');
        },
        Component::Normal(name) => {
            out.append(name);
        },
    }
    assert(out@ == component@.spelled());
    out
}

/// A file as it is known in a workspace, where paths have no drives and no
/// shares.
///
/// A file outside the root gets a path with `..` in front. No absolute path
/// comes out of this: where the two paths share no component at all, the root
/// is dropped.
pub fn workspace_relative(workspace_root: &str, file: &str) -> (out: String)
    ensures
        out@ == relative(workspace_root@, file@),
{
    relate(&components_of(workspace_root), &components_of(file))
}

/// A file as it is known in a workspace, where paths are of some style.
///
/// A drive and a share are dropped too where they are not those of the root:
/// there is no relative form then.
pub fn workspace_relative_in(style: Style, workspace_root: &str, file: &str) -> (out: String)
    ensures
        out@ == relative_in(style, workspace_root@, file@),
{
    relate(&parts_of(style, workspace_root), &parts_of(style, file))
}

/// Relates the components of a file to those of a directory.
fn relate(root: &Vec<Component>, target: &Vec<Component>) -> (out: String)
    ensures
        out@ == text::joined(
            relative_segments(components_view(root@), components_view(target@)),
            seq!['/'],
        ),
{
    let ghost a = components_view(root@);
    let ghost b = components_view(target@);
    let mut common: usize = 0;
    assert(a.skip(0) == a);
    assert(b.skip(0) == b);
    while common < root.len() && common < target.len() && same_component(
        &root[common],
        &target[common],
    )
        invariant
            components_view(root@) == a,
            components_view(target@) == b,
            common <= root.len(),
            common <= target.len(),
            shared(a, b) == common + shared(a.skip(common as int), b.skip(common as int)),
        decreases root.len() - common,
    {
        assert(a.skip(common as int)[0] == root@[common as int]@);
        assert(b.skip(common as int)[0] == target@[common as int]@);
        assert(a.skip(common as int).skip(1) == a.skip(common + 1));
        assert(b.skip(common as int).skip(1) == b.skip(common + 1));
        common += 1;
    }
    proof {
        if common < root@.len() && common < target@.len() {
            assert(a.skip(common as int)[0] == root@[common as int]@);
            assert(b.skip(common as int)[0] == target@[common as int]@);
        }
        assert(shared(a, b) == common);
    }
    let mut segments: Vec<String> = Vec::new();
    if common == 0 {
        let mut i: usize = 0;
        assert(b.take(0) == Seq::<ComponentView>::empty());
        while i < target.len()
            invariant
                i <= target.len(),
                components_view(target@) == b,
                text::views(segments@) == names(b.take(i as int)),
            decreases target.len() - i,
        {
            assert(b.take(i + 1).drop_last() == b.take(i as int));
            assert(b.take(i + 1).last() == target@[i as int]@);
            let ghost before = segments@;
            match &target[i] {
                Component::Normal(name) => {
                    segments.push(name.clone());
                    assert(text::views(segments@) == text::views(before).push(name@));
                },
                _ => {},
            }
            i += 1;
        }
        assert(b.take(i as int) == b);
    } else {
        let mut up: usize = common;
        while up < root.len()
            invariant
                common <= up <= root.len(),
                text::views(segments@) == steps_up(up - common),
            decreases root.len() - up,
        {
            let ghost before = segments@;
            segments.push(spell(&Component::Parent));
            assert(text::views(segments@) == text::views(before).push(seq!['.', '.']));
            up += 1;
        }
        let ghost climbed = steps_up(root@.len() - common);
        let ghost own = b.skip(common as int).map_values(
            |component: ComponentView| component.spelled(),
        );
        let mut i: usize = common;
        assert(climbed + own.take(0) == climbed);
        while i < target.len()
            invariant
                common <= i <= target.len(),
                components_view(target@) == b,
                own == b.skip(common as int).map_values(
                    |component: ComponentView| component.spelled(),
                ),
                text::views(segments@) == climbed + own.take(i - common),
            decreases target.len() - i,
        {
            let ghost before = segments@;
            assert(own[i - common] == target@[i as int]@.spelled());
            segments.push(spell(&target[i]));
            assert(text::views(segments@) == text::views(before).push(own[i - common]));
            assert(own.take(i - common + 1) == own.take(i - common).push(own[i - common]));
            assert((climbed + own.take(i - common)).push(own[i - common]) == climbed + own.take(
                i - common,
            ).push(own[i - common]));
            i += 1;
        }
        assert(own.take(i - common) == own);
    }
    proof {
        reveal_strlit("/");
        assert("/"@ == seq!['/']);
    }
    text::join(&segments, "/")
}

/// A share takes up no more than the path that starts with it.
proof fn lemma_share_fits(path: Seq<char>)
    requires
        has_share(path),
    ensures
        text::split(path, '/')[2].len() + text::split(path, '/')[3].len() + 3 <= path.len(),
{
    lemma_pieces_fit(path, '/');
    let pieces = text::split(path, '/');
    lemma_total_of_four(pieces);
}

/// The length of several texts together.
spec fn total_length(pieces: Seq<Seq<char>>) -> nat
    decreases pieces.len(),
{
    if pieces.len() == 0 {
        0
    } else {
        total_length(pieces.drop_last()) + pieces.last().len()
    }
}

/// The pieces of a text and the separators between them make up its length.
proof fn lemma_pieces_fit(path: Seq<char>, separator: char)
    ensures
        text::split(path, separator).len() > 0,
        total_length(text::split(path, separator)) + text::split(path, separator).len() - 1
            == path.len(),
    decreases path.len(),
{
    let pieces = text::split(path, separator);
    if path.len() == 0 {
        assert(pieces.drop_last() == Seq::<Seq<char>>::empty());
        assert(total_length(pieces.drop_last()) == 0);
        assert(pieces.last().len() == 0);
    } else {
        lemma_pieces_fit(path.drop_last(), separator);
        let before = text::split(path.drop_last(), separator);
        if path.last() == separator {
            assert(pieces.drop_last() == before);
            assert(pieces.last().len() == 0);
        } else {
            assert(pieces.drop_last() == before.drop_last());
            assert(pieces.last() == before.last().push(path.last()));
        }
    }
}

/// The third and the fourth of several texts are no longer than all of them.
proof fn lemma_total_of_four(pieces: Seq<Seq<char>>)
    requires
        pieces.len() >= 4,
    ensures
        pieces[2].len() + pieces[3].len() <= total_length(pieces),
    decreases pieces.len(),
{
    let rest = pieces.drop_last();
    if pieces.len() > 4 {
        lemma_total_of_four(rest);
    } else {
        assert(total_length(rest) == total_length(rest.drop_last()) + rest.last().len());
    }
}

/// No piece between separators holds one.
proof fn lemma_pieces_hold_no_separator(path: Seq<char>, separator: char)
    ensures
        forall|i: int|
            0 <= i < text::split(path, separator).len() ==> !(#[trigger] text::split(
                path,
                separator,
            )[i]).contains(separator),
    decreases path.len(),
{
    let pieces = text::split(path, separator);
    if path.len() > 0 {
        let before = text::split(path.drop_last(), separator);
        text::lemma_split_some(path.drop_last(), separator);
        lemma_pieces_hold_no_separator(path.drop_last(), separator);
        assert forall|i: int| 0 <= i < pieces.len() implies !(#[trigger] pieces[i]).contains(
            separator,
        ) by {
            if i < before.len() - 1 {
                assert(pieces[i] == before[i]);
            } else if path.last() == separator {
                if i < before.len() {
                    assert(pieces[i] == before[i]);
                }
            } else {
                let old_piece = before.last();
                assert(!before[before.len() - 1].contains(separator));
                assert(pieces[i] == old_piece.push(path.last()));
                if pieces[i].contains(separator) {
                    let k = choose|k: int| 0 <= k < pieces[i].len() && pieces[i][k] == separator;
                    assert(old_piece[k] == separator);
                }
            }
        }
    }
}

/// What pieces without a slash stand for is spelled with something, and
/// without one.
proof fn lemma_piece_components(pieces: Seq<Seq<char>>)
    requires
        forall|i: int| 0 <= i < pieces.len() ==> !(#[trigger] pieces[i]).contains('/'),
    ensures
        forall|i: int|
            0 <= i < piece_components(pieces).len() ==> {
                let spelled = (#[trigger] piece_components(pieces)[i]).spelled();
                spelled.len() > 0 && spelled[0] != '/'
            },
    decreases pieces.len(),
{
    if pieces.len() > 0 {
        let rest = pieces.drop_last();
        assert forall|i: int| 0 <= i < rest.len() implies !(#[trigger] rest[i]).contains('/') by {
            assert(rest[i] == pieces[i]);
        }
        lemma_piece_components(rest);
        let known = piece_components(rest);
        let all = piece_components(pieces);
        assert forall|i: int| 0 <= i < all.len() implies {
            let spelled = (#[trigger] all[i]).spelled();
            spelled.len() > 0 && spelled[0] != '/'
        } by {
            if i < known.len() {
                assert(all[i] == known[i]);
            } else {
                let piece = pieces[pieces.len() - 1];
                assert(!piece.contains('/'));
                if piece.len() > 0 && piece[0] == '/' {
                    assert(piece.contains(piece[0]));
                }
            }
        }
    }
}

/// Names are spelled with something, and do not start with a slash where what
/// they come from does not.
proof fn lemma_names(components: Seq<ComponentView>)
    requires
        forall|i: int|
            0 <= i < components.len() ==> (#[trigger] components[i]) is Root || {
                let spelled = components[i].spelled();
                spelled.len() > 0 && spelled[0] != '/'
            },
    ensures
        forall|i: int|
            0 <= i < names(components).len() ==> (#[trigger] names(components)[i]).len() > 0
                && names(components)[i][0] != '/',
    decreases components.len(),
{
    if components.len() > 0 {
        let rest = components.drop_last();
        assert forall|i: int| 0 <= i < rest.len() implies (#[trigger] rest[i]) is Root || {
            let spelled = rest[i].spelled();
            spelled.len() > 0 && spelled[0] != '/'
        } by {
            assert(rest[i] == components[i]);
        }
        lemma_names(rest);
        let last = components[components.len() - 1];
        assert(last is Root || (last.spelled().len() > 0 && last.spelled()[0] != '/'));
        let known = names(rest);
        let all = names(components);
        assert forall|i: int| 0 <= i < all.len() implies (#[trigger] all[i]).len() > 0 && all[i][0]
            != '/' by {
            if i < known.len() {
                assert(all[i] == known[i]);
            }
        }
    }
}

/// What texts make when they are joined starts with what the first of them
/// starts with.
proof fn lemma_joined_starts(parts: Seq<Seq<char>>, separator: Seq<char>)
    requires
        parts.len() > 0,
        parts[0].len() > 0,
    ensures
        text::joined(parts, separator).len() > 0,
        text::joined(parts, separator)[0] == parts[0][0],
    decreases parts.len(),
{
    if parts.len() > 1 {
        assert(parts.drop_last()[0] == parts[0]);
        lemma_joined_starts(parts.drop_last(), separator);
    }
}

/// A file is never known by an absolute path, wherever it and the root of the
/// workspace are, where paths have no drives and no shares.
pub proof fn law_no_file_is_known_by_an_absolute_path(root: Seq<char>, file: Seq<char>)
    ensures
        relative(root, file).len() == 0 || relative(root, file)[0] != '/',
{
    let a = components(root);
    let b = components(file);
    let pieces = text::split(file, '/');
    let common = shared(a, b);
    lemma_pieces_hold_no_separator(file, '/');
    lemma_piece_components(pieces);
    assert forall|i: int| 0 <= i < b.len() implies (i == 0 && (#[trigger] b[i]) is Root) || {
        let spelled = b[i].spelled();
        spelled.len() > 0 && spelled[0] != '/'
    } by {
        let own = piece_components(pieces);
        let lead = b.len() - own.len();
        if i >= lead {
            assert(b[i] == own[i - lead]);
        }
    }
    let segments = relative_segments(a, b);
    if segments.len() > 0 {
        assert(segments[0].len() > 0 && segments[0][0] != '/') by {
            if common == 0 {
                lemma_names(b);
            } else if a.len() - common > 0 {
                assert(segments[0] == seq!['.', '.']);
            } else {
                lemma_shared_start(a, b);
                assert(segments[0] == b[common as int].spelled());
            }
        }
        lemma_joined_starts(segments, seq!['/']);
    }
}

/// A path shares all of its components with every path that starts with them.
proof fn lemma_shared_all(a: Seq<ComponentView>, rest: Seq<ComponentView>)
    ensures
        shared(a, a + rest) == a.len(),
    decreases a.len(),
{
    if a.len() > 0 {
        assert((a + rest).skip(1) == a.skip(1) + rest);
        lemma_shared_all(a.skip(1), rest);
    }
}

/// A file below the root is known by what follows the root.
pub proof fn law_a_file_below_the_root_is_known_by_the_rest(
    root: Seq<ComponentView>,
    rest: Seq<ComponentView>,
)
    requires
        root.len() > 0,
    ensures
        relative_segments(root, root + rest) == rest.map_values(
            |component: ComponentView| component.spelled(),
        ),
{
    lemma_shared_all(root, rest);
    assert((root + rest).skip(root.len() as int) == rest);
    assert(steps_up(0) + rest.map_values(|component: ComponentView| component.spelled())
        == rest.map_values(|component: ComponentView| component.spelled()));
}

/// Components with every `.` left out, and every `..` with what it undoes. Above
/// the root there is nothing.
pub open spec fn settled(components: Seq<ComponentView>) -> Seq<ComponentView>
    decreases components.len(),
{
    if components.len() == 0 {
        Seq::empty()
    } else {
        let rest = settled(components.drop_last());
        match components.last() {
            ComponentView::Parent => if rest.len() > 0 && rest.last() is Normal {
                rest.drop_last()
            } else if rest.len() > 0 && rest.last() is Root {
                rest
            } else {
                rest.push(ComponentView::Parent)
            },
            ComponentView::Current => rest,
            component => rest.push(component),
        }
    }
}

/// Whether a path is absolute and has no `..`.
pub open spec fn plain(path: Seq<char>) -> bool {
    &&& path.len() > 0 && path[0] == '/'
    &&& !components(path).contains(ComponentView::Parent)
}

proof fn lemma_piece_components_add(a: Seq<Seq<char>>, b: Seq<Seq<char>>)
    ensures
        piece_components(a + b) == piece_components(a) + piece_components(b),
    decreases b.len(),
{
    if b.len() == 0 {
        assert(a + b == a);
        assert(piece_components(a) + piece_components(b) == piece_components(a));
    } else {
        assert((a + b).drop_last() == a + b.drop_last());
        assert((a + b).last() == b.last());
        lemma_piece_components_add(a, b.drop_last());
        assert(piece_components(a + b) == piece_components(a) + piece_components(b));
    }
}

/// Whether a text is the name of a component.
spec fn is_name(name: Seq<char>) -> bool {
    name.len() > 0 && name != seq!['.'] && name != seq!['.', '.'] && !name.contains('/')
}

proof fn lemma_piece_names(pieces: Seq<Seq<char>>)
    requires
        forall|i: int| 0 <= i < pieces.len() ==> !(#[trigger] pieces[i]).contains('/'),
    ensures
        forall|i: int|
            0 <= i < piece_components(pieces).len() ==> match #[trigger] piece_components(
                pieces,
            )[i] {
                ComponentView::Normal(name) => is_name(name),
                component => component is Parent,
            },
    decreases pieces.len(),
{
    if pieces.len() > 0 {
        let rest = pieces.drop_last();
        assert forall|i: int| 0 <= i < rest.len() implies !(#[trigger] rest[i]).contains('/') by {
            assert(rest[i] == pieces[i]);
        }
        lemma_piece_names(rest);
        assert(!pieces[pieces.len() - 1].contains('/'));
        let known = piece_components(rest);
        let all = piece_components(pieces);
        assert forall|i: int| 0 <= i < all.len() implies match #[trigger] all[i] {
            ComponentView::Normal(name) => is_name(name),
            component => component is Parent,
        } by {
            if i < known.len() {
                assert(all[i] == known[i]);
            }
        }
    }
}

/// A plain path is its root and names.
proof fn lemma_plain(path: Seq<char>)
    requires
        plain(path),
    ensures
        components(path).len() > 0,
        components(path)[0] is Root,
        forall|i: int|
            0 < i < components(path).len() ==> ((#[trigger] components(path)[i]) matches ComponentView::Normal(
                name,
            ) && is_name(name)),
{
    let all = components(path);
    let own = piece_components(text::split(path, '/'));
    lemma_pieces_hold_no_separator(path, '/');
    lemma_piece_names(text::split(path, '/'));
    assert forall|i: int| 0 < i < all.len() implies ((#[trigger] all[i]) matches ComponentView::Normal(
        name,
    ) && is_name(name)) by {
        assert(all[i] == own[i - 1]);
        assert(all.contains(all[i]));
    }
}

/// The segments that spell steps up and then names stand for them.
proof fn lemma_spelled_pieces(count: int, rest: Seq<ComponentView>)
    requires
        count >= 0,
        forall|i: int|
            0 <= i < rest.len() ==> ((#[trigger] rest[i]) matches ComponentView::Normal(name)
                && is_name(name)),
    ensures
        ({
            let segments = steps_up(count) + rest.map_values(
                |component: ComponentView| component.spelled(),
            );
            &&& forall|i: int| 0 <= i < segments.len() ==> !(#[trigger] segments[i]).contains('/')
            &&& piece_components(segments) == Seq::new(
                count as nat,
                |i: int| ComponentView::Parent,
            ) + rest
        }),
    decreases count + rest.len(),
{
    let spelled = rest.map_values(|component: ComponentView| component.spelled());
    let segments = steps_up(count) + spelled;
    let ups = Seq::new(count as nat, |i: int| ComponentView::Parent);
    assert forall|i: int| 0 <= i < segments.len() implies !(#[trigger] segments[i]).contains(
        '/',
    ) by {
        if i >= count {
            assert(segments[i] == rest[i - count].spelled());
        } else {
            assert(segments[i] == seq!['.', '.']);
        }
    }
    if rest.len() > 0 {
        let fewer = rest.drop_last();
        assert forall|i: int| 0 <= i < fewer.len() implies ((
        #[trigger] fewer[i]) matches ComponentView::Normal(name) && is_name(name)) by {
            assert(fewer[i] == rest[i]);
        }
        lemma_spelled_pieces(count, fewer);
        assert(segments.drop_last() == steps_up(count) + fewer.map_values(
            |component: ComponentView| component.spelled(),
        ));
        assert(rest[rest.len() - 1] is Normal);
        assert((ups + fewer).push(rest.last()) == ups + rest);
    } else if count > 0 {
        lemma_spelled_pieces(count - 1, rest);
        assert(segments.drop_last() == steps_up(count - 1) + spelled);
        assert(segments.last() == seq!['.', '.']);
        assert((Seq::new((count - 1) as nat, |i: int| ComponentView::Parent) + rest).push(
            ComponentView::Parent,
        ) == ups + rest);
    } else {
        assert(segments.len() == 0);
        assert(ups + rest == Seq::<ComponentView>::empty());
    }
}

/// The components of a relative path behind a base follow those of the base.
proof fn lemma_components_joined(base: Seq<char>, path: Seq<char>)
    requires
        base.len() > 0 && base[0] == '/',
        path.len() == 0 || path[0] != '/',
    ensures
        components(joined(base, path)) == components(base) + piece_components(
            text::split(path, '/'),
        ),
{
    let before = text::split(base, '/');
    let after = text::split(path, '/');
    let root = seq![ComponentView::Root];
    text::lemma_split_some(base, '/');
    if base.last() != '/' {
        let ended = base.push('/');
        text::lemma_split_after(ended, path, '/');
        assert(ended.drop_last() == base);
        assert(text::split(ended, '/').drop_last() == before);
        lemma_piece_components_add(before, after);
    } else {
        text::lemma_split_after(base, path, '/');
        lemma_piece_components_add(before.drop_last(), after);
        assert(piece_components(before) == piece_components(before.drop_last()));
    }
    assert(joined(base, path)[0] == '/');
    assert(components(joined(base, path)) == root + (piece_components(before)
        + piece_components(after)));
    assert(components(base) == root + piece_components(before));
}

/// A root and names are settled.
proof fn lemma_settled(components: Seq<ComponentView>)
    requires
        forall|i: int| 0 <= i < components.len() ==> (#[trigger] components[i]) is Root
            || components[i] is Normal,
    ensures
        settled(components) == components,
    decreases components.len(),
{
    if components.len() > 0 {
        let rest = components.drop_last();
        assert forall|i: int| 0 <= i < rest.len() implies (#[trigger] rest[i]) is Root
            || rest[i] is Normal by {
            assert(rest[i] == components[i]);
        }
        lemma_settled(rest);
        let n = components.len() - 1;
        assert(components[n] is Root || components[n] is Normal);
        assert(rest.push(components.last()) == components);
    } else {
        assert(settled(components) == components);
    }
}

/// Steps up from names leave as many of them out; names that follow stay.
proof fn lemma_settled_steps(
    base: Seq<ComponentView>,
    count: int,
    rest: Seq<ComponentView>,
)
    requires
        0 <= count < base.len(),
        base[0] is Root,
        forall|i: int| 0 < i < base.len() ==> (#[trigger] base[i]) is Normal,
        forall|i: int| 0 <= i < rest.len() ==> (#[trigger] rest[i]) is Normal,
    ensures
        settled(base + Seq::new(count as nat, |i: int| ComponentView::Parent) + rest)
            == base.take(base.len() - count) + rest,
    decreases count + rest.len(),
{
    let ups = Seq::new(count as nat, |i: int| ComponentView::Parent);
    let all = base + ups + rest;
    if rest.len() > 0 {
        let fewer = rest.drop_last();
        assert forall|i: int| 0 <= i < fewer.len() implies (#[trigger] fewer[i]) is Normal by {
            assert(fewer[i] == rest[i]);
        }
        lemma_settled_steps(base, count, fewer);
        assert(all.drop_last() == base + ups + fewer);
        assert(rest[rest.len() - 1] is Normal);
        assert((base.take(base.len() - count) + fewer).push(rest.last()) == base.take(
            base.len() - count,
        ) + rest);
    } else if count > 0 {
        lemma_settled_steps(base, count - 1, rest);
        let one_less = Seq::new((count - 1) as nat, |i: int| ComponentView::Parent);
        assert(all.drop_last() == base + one_less + rest);
        assert(all.last() is Parent);
        let kept = base.take(base.len() - count + 1);
        assert(kept + rest == kept);
        assert(kept.last() == base[base.len() - count]);
        assert(kept.drop_last() == base.take(base.len() - count));
        assert(base.take(base.len() - count) + rest == base.take(base.len() - count));
    } else {
        assert(all == base);
        lemma_settled(base);
        assert(base.take(base.len() as int) + rest == base);
    }
}

/// What two paths share is the start of both.
proof fn lemma_shared_start(a: Seq<ComponentView>, b: Seq<ComponentView>)
    ensures
        shared(a, b) <= a.len(),
        shared(a, b) <= b.len(),
        a.take(shared(a, b) as int) == b.take(shared(a, b) as int),
    decreases a.len(),
{
    if a.len() > 0 && b.len() > 0 && a[0] == b[0] {
        lemma_shared_start(a.skip(1), b.skip(1));
        let n = shared(a.skip(1), b.skip(1)) as int;
        assert(a.take(n + 1) == seq![a[0]] + a.skip(1).take(n));
        assert(b.take(n + 1) == seq![b[0]] + b.skip(1).take(n));
    } else {
        assert(a.take(0) == b.take(0));
    }
}

/// The way from the root of a workspace to a file is found again: behind the
/// root, what a file is known by leads back to the file. The way goes up first,
/// once for every component of the root that the file does not share, and then
/// only down.
pub proof fn law_what_a_file_is_known_by_leads_to_it(root: Seq<char>, file: Seq<char>)
    requires
        plain(root),
        plain(file),
    ensures
        settled(components(joined(root, relative(root, file)))) == components(file),
        ({
            let segments = relative_segments(components(root), components(file));
            let ups = components(root).len() - shared(components(root), components(file));
            &&& ups <= segments.len()
            &&& forall|i: int|
                0 <= i < segments.len() ==> ((#[trigger] segments[i]) == seq!['.', '.'] <==> i
                    < ups)
        }),
{
    let a = components(root);
    let b = components(file);
    lemma_plain(root);
    lemma_plain(file);
    lemma_shared_start(a, b);
    let common = shared(a, b) as int;
    assert(common > 0);
    let count = a.len() - common;
    let rest = b.skip(common);
    assert forall|i: int| 0 <= i < rest.len() implies ((
    #[trigger] rest[i]) matches ComponentView::Normal(name) && is_name(name)) by {
        assert(rest[i] == b[i + common]);
    }
    lemma_spelled_pieces(count, rest);
    let segments = relative_segments(a, b);
    let ups = Seq::new(count as nat, |i: int| ComponentView::Parent);
    let way = relative(root, file);
    if segments.len() > 0 {
        text::law_splitting_undoes_joining(segments, '/');
    } else {
        assert(way == Seq::<char>::empty());
        assert(text::split(way, '/') == seq![Seq::<char>::empty()]);
        assert(seq![Seq::<char>::empty()].drop_last() == Seq::<Seq<char>>::empty());
        assert(segments == Seq::<Seq<char>>::empty());
    }
    assert(piece_components(text::split(way, '/')) == ups + rest);
    law_no_file_is_known_by_an_absolute_path(root, file);
    lemma_components_joined(root, way);
    assert(a + (ups + rest) == a + ups + rest);
    lemma_settled_steps(a, count, rest);
    assert(a.take(common) + rest == b);
    assert forall|i: int| 0 <= i < segments.len() implies ((#[trigger] segments[i]) == seq![
        '.',
        '.',
    ] <==> i < count) by {
        if i >= count {
            assert(segments[i] == rest[i - count].spelled());
        }
    }
}

proof fn lemma_names_behind(first: ComponentView, rest: Seq<ComponentView>)
    requires
        !(first is Normal),
    ensures
        names(seq![first] + rest) == names(rest),
    decreases rest.len(),
{
    let all = seq![first] + rest;
    if rest.len() == 0 {
        assert(all.drop_last() == rest);
        assert(all.last() == first);
    } else {
        assert(all.drop_last() == seq![first] + rest.drop_last());
        assert(all.last() == rest.last());
        lemma_names_behind(first, rest.drop_last());
    }
}

/// A drive or a share that the root and a file have in common makes no
/// difference: the file is known as it would be without.
pub proof fn law_a_common_prefix_makes_no_difference(
    prefix: ComponentView,
    root: Seq<ComponentView>,
    file: Seq<ComponentView>,
)
    requires
        shared(root, file) > 0,
    ensures
        relative_segments(seq![prefix] + root, seq![prefix] + file) == relative_segments(
            root,
            file,
        ),
{
    let a = seq![prefix] + root;
    let b = seq![prefix] + file;
    assert(a.skip(1) == root);
    assert(b.skip(1) == file);
    lemma_shared_start(root, file);
    let common = shared(root, file) as int;
    assert(shared(a, b) == 1 + common);
    assert(b.skip(1 + common) == file.skip(common));
}

/// A drive or a share that is not that of the root is dropped: the file is known
/// by the names that follow.
pub proof fn law_another_prefix_is_dropped(
    first: ComponentView,
    root: Seq<ComponentView>,
    second: ComponentView,
    file: Seq<ComponentView>,
)
    requires
        first != second,
        !(second is Normal),
    ensures
        relative_segments(seq![first] + root, seq![second] + file) == names(file),
{
    lemma_names_behind(second, file);
}

/// Whether a Windows path is absolute and starts with a drive.
pub open spec fn absolute_on_a_drive(path: Seq<char>) -> bool {
    let path = text::slashed(path);
    has_drive(path) && path.len() > 2 && path[2] == '/'
}

/// What follows the drive of a Windows path.
pub open spec fn after_drive(path: Seq<char>) -> Seq<char> {
    text::slashed(path).skip(2)
}

/// No drive ever gets into what a file is known by, and no absolute path does. On
/// the drive of the root a file is known as it would be if there were no drives,
/// and on another one by its names.
pub proof fn law_no_file_is_known_by_its_drive(root: Seq<char>, file: Seq<char>)
    requires
        absolute_on_a_drive(root),
        absolute_on_a_drive(file),
    ensures
        relative_in(Style::Windows, root, file) == (if capital(text::slashed(root)[0]) == capital(
            text::slashed(file)[0],
        ) {
            relative(after_drive(root), after_drive(file))
        } else {
            text::joined(names(components(after_drive(file))), seq!['/'])
        }),
        relative_in(Style::Windows, root, file).len() == 0 || relative_in(
            Style::Windows,
            root,
            file,
        )[0] != '/',
{
    let a = components(after_drive(root));
    let b = components(after_drive(file));
    let first = ComponentView::Drive(capital(text::slashed(root)[0]));
    let second = ComponentView::Drive(capital(text::slashed(file)[0]));
    assert(a[0] is Root && b[0] is Root);
    if first == second {
        law_a_common_prefix_makes_no_difference(first, a, b);
        law_no_file_is_known_by_an_absolute_path(after_drive(root), after_drive(file));
    } else {
        law_another_prefix_is_dropped(first, a, second, b);
        let empty = Seq::<char>::empty();
        law_no_file_is_known_by_an_absolute_path(empty, after_drive(file));
        let pieces = text::split(empty, '/');
        assert(pieces.drop_last() == Seq::<Seq<char>>::empty());
        assert(piece_components(pieces) == piece_components(pieces.drop_last()));
        assert(pieces[0] != seq!['.']) by {
            assert(pieces[0].len() == 0 && seq!['.'].len() == 1);
        }
        assert(components(empty) == Seq::<ComponentView>::empty());
        assert(relative_segments(components(empty), b) == names(b));
    }
}

/// Whether a text can be the name of a file or of a directory, in either style: it
/// is not empty, is neither `.` nor `..`, and holds no separator and no colon.
pub open spec fn plain_name(name: Seq<char>) -> bool {
    &&& name.len() > 0
    &&& name != seq!['.']
    &&& name != seq!['.', '.']
    &&& !name.contains('/')
    &&& !name.contains('\\')
    &&& !name.contains(':')
}

/// Whether a directory is written without anything at its end that says nothing:
/// no slash but that of the root, and no `.` behind a slash.
pub open spec fn tidy(dir: Seq<char>) -> bool {
    dir.len() > 0 && !(dir.len() >= 2 && (dir.last() == '/' || (dir.last() == '.'
        && dir[dir.len() - 2] == '/')))
}

/// Whether a directory of some style is written so. On Windows it has slashes, and
/// what follows its drive is written so, or is nothing.
pub open spec fn tidy_in(style: Style, dir: Seq<char>) -> bool {
    match style {
        Style::Unix => tidy(dir),
        Style::Windows => !dir.contains('\\') && if has_drive(dir) {
            dir.len() == 2 || tidy(dir.skip(2))
        } else {
            tidy(dir)
        },
    }
}

proof fn lemma_trimmed_is_tidy(path: Seq<char>)
    ensures
        trimmed(path).len() == 0 <==> path.len() == 0,
        trimmed(path).len() > 0 ==> tidy(trimmed(path)),
        trimmed(path).len() <= path.len(),
        trimmed(path) == path.take(trimmed(path).len() as int),
        tidy(path) ==> trimmed(path) == path,
    decreases path.len(),
{
    if path.len() >= 2 && (path.last() == '/' || (path.last() == '.' && path[path.len() - 2]
        == '/')) {
        lemma_trimmed_is_tidy(path.drop_last());
        let n = trimmed(path.drop_last()).len() as int;
        assert(path.drop_last().take(n) == path.take(n));
    } else {
        assert(path.take(path.len() as int) == path);
    }
}

proof fn lemma_up_to_slash(base: Seq<char>, name: Seq<char>)
    requires
        base.len() == 0 || base.last() == '/',
        !name.contains('/'),
    ensures
        up_to_slash(base + name) == base,
    decreases name.len(),
{
    let path = base + name;
    if name.len() == 0 {
        assert(path == base);
    } else {
        assert(name.contains(name.last()));
        assert(path.last() == name.last());
        assert(path.drop_last() == base + name.drop_last());
        if name.drop_last().contains('/') {
            let i = choose|i: int| 0 <= i < name.drop_last().len() && name.drop_last()[i] == '/';
            assert(name[i] == '/');
        }
        lemma_up_to_slash(base, name.drop_last());
    }
}

proof fn lemma_name_in_directory(dir: Seq<char>, name: Seq<char>)
    requires
        tidy(dir),
        plain_name(name),
    ensures
        tidy(joined(dir, name)),
        parent(joined(dir, name)) == Some(dir),
        file_name(joined(dir, name)) == Some(name),
        joined(dir, name).take(dir.len() as int) == dir,
        joined(dir, name).len() > dir.len(),
        dir.len() == 1 && dir[0] != '/' ==> joined(dir, name)[1] == '/',
{
    let base = if dir.last() != '/' {
        dir.push('/')
    } else {
        dir
    };
    let path = joined(dir, name);
    assert(name.contains(name[0]));
    assert(path == base + name);
    assert(name.contains(name.last()));
    assert(path.last() == name.last());
    assert(tidy(path)) by {
        if path.last() == '.' && path[path.len() - 2] == '/' {
            if name.len() >= 2 {
                assert(path[path.len() - 2] == name[name.len() - 2]);
                assert(name.contains(name[name.len() - 2]));
            } else {
                assert(name == seq!['.']);
            }
        }
    }
    lemma_trimmed_is_tidy(path);
    lemma_up_to_slash(base, name);
    lemma_trimmed_is_tidy(dir);
    lemma_trimmed_is_tidy(base);
    assert(trimmed(base) == dir) by {
        if dir.last() != '/' {
            assert(base.drop_last() == dir);
        }
    }
    assert(path != seq!['/']) by {
        if path == seq!['/'] {
            assert(path.last() == '/');
        }
    }
    assert(path.skip(base.len() as int) == name);
    assert(path.take(dir.len() as int) == dir);
}

proof fn lemma_slashed_stays(path: Seq<char>)
    requires
        !path.contains('\\'),
    ensures
        text::slashed(path) == path,
{
    assert forall|i: int| 0 <= i < path.len() implies text::slashed(path)[i] == path[i] by {
        assert(path.contains(path[i]));
    }
    assert(text::slashed(path) =~= path);
}

proof fn lemma_slashed_has_none(path: Seq<char>)
    ensures
        !text::slashed(path).contains('\\'),
        text::slashed(text::slashed(path)) == text::slashed(path),
{
    let all = text::slashed(path);
    if all.contains('\\') {
        let i = choose|i: int| 0 <= i < all.len() && all[i] == '\\';
        assert(all[i] == (if path[i] == '\\' {
            '/'
        } else {
            path[i]
        }));
    }
    lemma_slashed_stays(all);
}

proof fn lemma_name_has_no_prefix(name: Seq<char>)
    requires
        plain_name(name),
    ensures
        prefix_length(name) == 0,
        text::slashed(name) == name,
        name[0] != '/',
{
    lemma_slashed_stays(name);
    assert(name.contains(name[0]));
    if has_drive(name) {
        assert(name.contains(name[1]));
    }
    if has_share(name) {
        text::law_a_separator_separates(name, name, '/');
        assert(text::split(name, '/').len() == 1);
    }
}

/// A name behind a directory is in that directory, and is the name of what is
/// there; and the path of it is a directory for further names.
pub proof fn law_a_name_is_in_its_directory(style: Style, dir: Seq<char>, name: Seq<char>)
    requires
        tidy_in(style, dir),
        plain_name(name),
    ensures
        directory_in(style, joined_in(style, dir, name)) == dir,
        file_name_in(style, joined_in(style, dir, name)) == Some(name),
        tidy_in(style, joined_in(style, dir, name)),
{
    let path = joined_in(style, dir, name);
    match style {
        Style::Unix => {
            lemma_name_in_directory(dir, name);
        },
        Style::Windows => {
            lemma_slashed_stays(dir);
            lemma_name_has_no_prefix(name);
            if has_drive(dir) {
                let rest = dir.skip(2);
                if dir.len() == 2 {
                    assert(path == dir + name);
                    assert(path.skip(2) == name);
                    assert(path.take(2) == dir);
                    let none = Seq::<char>::empty();
                    lemma_up_to_slash(none, name);
                    assert(none + name == name);
                    lemma_trimmed_is_tidy(name);
                    assert(tidy(name)) by {
                        if name.len() >= 2 {
                            assert(name.contains(name.last()));
                            assert(name.contains(name[name.len() - 2]));
                        }
                    }
                    assert(name.skip(0) == name);
                    assert(trimmed(none) == none);
                    assert(name != seq!['/']) by {
                        if name == seq!['/'] {
                            assert(name.contains(name[0]));
                        }
                    }
                    assert(path.take(2) + none == dir);
                } else {
                    lemma_name_in_directory(rest, name);
                    assert(dir.last() == rest.last());
                    assert(path == joined(dir, name));
                    assert(path.skip(2) == joined(rest, name));
                    assert(path.take(2) == dir.take(2));
                    assert(dir.take(2) + rest == dir);
                }
                assert(path[0] == dir[0] && path[1] == dir[1]);
                assert(has_drive(path));
            } else {
                lemma_name_in_directory(dir, name);
                assert(path == joined(dir, name));
                assert(!has_drive(path)) by {
                    assert(path.take(dir.len() as int)[0] == dir[0]);
                    assert(path[0] == dir[0]);
                    if dir.len() >= 2 {
                        assert(path.take(dir.len() as int)[1] == dir[1]);
                        assert(path[1] == dir[1]);
                    } else if dir[0] == '/' {
                        assert(!names_a_drive('/'));
                    }
                }
            }
            assert(!path.contains('\\')) by {
                if path.contains('\\') {
                    let i = choose|i: int| 0 <= i < path.len() && path[i] == '\\';
                    if i < dir.len() {
                        assert(path[i] == dir[i]);
                    } else {
                        let k = i - (path.len() - name.len());
                        if k >= 0 {
                            assert(name[k] == path[i]);
                        }
                    }
                }
            }
            lemma_slashed_stays(path);
        },
    }
}

/// The directory that a file is in is written without anything at its end that says
/// nothing.
pub proof fn law_a_directory_is_tidy(style: Style, file: Seq<char>)
    ensures
        tidy_in(style, directory_in(style, file)),
{
    let path = match style {
        Style::Unix => file,
        Style::Windows => text::slashed(file),
    };
    lemma_slashed_has_none(file);
    lemma_directory_is_tidy(path);
    let dir = directory_in(style, file);
    if style is Windows {
        if has_drive(path) {
            let rest = path.skip(2);
            lemma_directory_is_tidy(rest);
            match parent(rest) {
                Some(inner) => {
                    assert(dir == path.take(2) + inner);
                    assert(dir.skip(2) == inner);
                    assert(dir[0] == path[0] && dir[1] == path[1]);
                    assert(dir == path.take(dir.len() as int)) by {
                        assert(inner == rest.take(inner.len() as int));
                        assert(path.take(2) + rest.take(inner.len() as int) == path.take(
                            2 + inner.len() as int,
                        ));
                    }
                },
                None => {},
            }
        } else {
            if has_drive(dir) {
                assert(dir == path.take(dir.len() as int));
                assert(path[0] == dir[0] && path[1] == dir[1]);
            }
        }
        if dir.contains('\\') {
            let i = choose|i: int| 0 <= i < dir.len() && dir[i] == '\\';
            if dir != seq!['.'] {
                assert(dir == path.take(dir.len() as int));
                assert(path[i] == '\\');
            }
        }
    }
}

proof fn lemma_directory_is_tidy(path: Seq<char>)
    ensures
        tidy(directory(path)),
        directory(path) == seq!['.'] || (directory(path).len() <= path.len() && directory(path)
            == path.take(directory(path).len() as int)),
        parent(path) matches Some(dir) ==> dir.len() <= path.len() && dir == path.take(
            dir.len() as int,
        ) && (dir.len() > 0 ==> tidy(dir)),
{
    let trim = trimmed(path);
    lemma_trimmed_is_tidy(path);
    lemma_up_to_slash_is_a_start(trim);
    let base = up_to_slash(trim);
    lemma_trimmed_is_tidy(base);
    let n = trimmed(base).len() as int;
    if parent(path) is Some {
        assert(trimmed(base) == base.take(n));
        assert(base.take(n) == trim.take(n));
        assert(trim.take(n) == path.take(n));
    }
}

proof fn lemma_up_to_slash_is_a_start(path: Seq<char>)
    ensures
        up_to_slash(path).len() <= path.len(),
        up_to_slash(path) == path.take(up_to_slash(path).len() as int),
    decreases path.len(),
{
    if path.len() == 0 || path.last() == '/' {
        assert(path.take(path.len() as int) == path);
    } else {
        lemma_up_to_slash_is_a_start(path.drop_last());
        let n = up_to_slash(path.drop_last()).len() as int;
        assert(path.drop_last().take(n) == path.take(n));
    }
}

/// A path behind a base is written behind it, with a slash between them if there is a
/// base and it does not end in one, and has the components of the base and then its
/// own. A path that starts with a slash stands for itself.
pub proof fn law_a_path_follows_its_base(base: Seq<char>, path: Seq<char>)
    ensures
        path.len() > 0 && path[0] == '/' ==> joined(base, path) == path,
        path.len() == 0 || path[0] != '/' ==> {
            let all = joined(base, path);
            &&& all.take(base.len() as int) == base
            &&& all.skip(all.len() - path.len()) == path
            &&& base.len() == 0 || base.last() == '/' ==> all.len() == base.len() + path.len()
            &&& base.len() > 0 && base.last() != '/' ==> all.len() == base.len() + path.len() + 1
                && all[base.len() as int] == '/'
        },
        (path.len() == 0 || path[0] != '/') && base.len() > 0 && base[0] == '/' ==> components(
            joined(base, path),
        ) == components(base) + piece_components(text::split(path, '/')),
{
    if path.len() == 0 || path[0] != '/' {
        if base.len() > 0 && base[0] == '/' {
            lemma_components_joined(base, path);
        }
        let all = joined(base, path);
        assert(all.take(base.len() as int) == base);
        assert(all.skip(all.len() - path.len()) == path);
    }
}

/// What the pieces of a path stand for: nothing for an empty one and for `.`, the
/// parent for `..`, and a name for any other. Those of two rows of pieces stand for
/// what the one stands for, and then the other.
pub proof fn law_what_pieces_stand_for(a: Seq<Seq<char>>, b: Seq<Seq<char>>, piece: Seq<char>)
    ensures
        piece_components(a + b) == piece_components(a) + piece_components(b),
        piece.len() == 0 || piece == seq!['.'] ==> piece_components(seq![piece]) == Seq::<
            ComponentView,
        >::empty(),
        piece == seq!['.', '.'] ==> piece_components(seq![piece]) == seq![ComponentView::Parent],
        piece.len() > 0 && piece != seq!['.'] && piece != seq!['.', '.'] ==> piece_components(
            seq![piece],
        ) == seq![ComponentView::Normal(piece)],
{
    lemma_piece_components_add(a, b);
    let none = Seq::<ComponentView>::empty();
    assert(seq![piece].drop_last() == Seq::<Seq<char>>::empty());
    assert(piece_components(seq![piece].drop_last()) == none);
    assert(none.push(ComponentView::Parent) == seq![ComponentView::Parent]);
    assert(none.push(ComponentView::Normal(piece)) == seq![ComponentView::Normal(piece)]);
    if piece == seq!['.', '.'] {
        assert(piece.len() == 2);
        assert(seq!['.'].len() == 1);
    }
}

/// A path is absolute if it starts with a slash, and has a `.` in front if its first
/// piece is one; its other components are those of its pieces.
pub proof fn law_what_a_path_starts_with(path: Seq<char>)
    ensures
        path.len() > 0 && path[0] == '/' ==> components(path) == seq![ComponentView::Root]
            + piece_components(text::split(path, '/')),
        path == seq!['.'] || (path.len() >= 2 && path[0] == '.' && path[1] == '/') ==> components(
            path,
        ) == seq![ComponentView::Current] + piece_components(text::split(path, '/')),
        path.len() > 0 && path[0] != '/' && path[0] != '.' ==> components(path)
            == piece_components(text::split(path, '/')),
{
    let pieces = text::split(path, '/');
    text::lemma_split_some(path, '/');
    let none = Seq::<ComponentView>::empty();
    if path == seq!['.'] || (path.len() >= 2 && path[0] == '.' && path[1] == '/') {
        let dot = seq!['.'];
        assert(!dot.contains('/'));
        if path == dot {
            text::law_a_separator_separates(dot, dot, '/');
        } else {
            let rest = path.skip(2);
            assert(path == dot.push('/') + rest);
            text::law_a_separator_separates(dot, rest, '/');
            assert(pieces[0] == (seq![dot] + text::split(rest, '/'))[0]);
        }
        assert(pieces[0] == dot);
    }
    if path.len() > 0 && path[0] != '/' && path[0] != '.' {
        lemma_first_piece(path);
        assert(pieces[0] != seq!['.']) by {
            if pieces[0] == seq!['.'] {
                assert(pieces[0][0] == '.');
            }
        }
        assert(none + piece_components(pieces) == piece_components(pieces));
    }
}

proof fn lemma_first_piece(path: Seq<char>)
    requires
        path.len() > 0,
        path[0] != '/',
    ensures
        text::split(path, '/').len() > 0,
        text::split(path, '/')[0].len() > 0,
        text::split(path, '/')[0][0] == path[0],
    decreases path.len(),
{
    let rest = path.drop_last();
    text::lemma_split_some(rest, '/');
    if rest.len() > 0 {
        lemma_first_piece(rest);
    } else {
        assert(rest == Seq::<char>::empty());
        assert(text::split(rest, '/') == seq![Seq::<char>::empty()]);
    }
}

/// On Windows a path with a drive stands for itself, one that starts with a single
/// separator follows the drive of its base, and any other follows the base. What comes
/// out is written with slashes.
pub proof fn law_a_windows_path_follows_its_base(base: Seq<char>, path: Seq<char>)
    requires
        has_drive(base),
        base.len() > 2,
    ensures
        has_drive(path) ==> joined_in(Style::Windows, base, path) == text::slashed(path),
        path.len() > 0 && (path[0] == '\\' || path[0] == '/') && (path.len() == 1 || (path[1]
            != '\\' && path[1] != '/')) ==> joined_in(Style::Windows, base, path) == seq![
            base[0],
            ':',
        ] + text::slashed(path),
        path.len() > 0 && path[0] != '\\' && path[0] != '/' && !has_drive(path) ==> joined_in(
            Style::Windows,
            base,
            path,
        ) == joined(text::slashed(base), text::slashed(path)),
        joined_in(Style::Unix, base, path) == joined(base, path),
{
    let own = text::slashed(path);
    let front = text::slashed(base);
    assert(names_a_drive(base[0]));
    assert(front[0] == base[0] && front[1] == ':');
    assert(has_drive(front));
    assert(front.take(2) == seq![base[0], ':']);
    if has_drive(path) {
        assert(own[0] == path[0] && own[1] == ':');
    } else if path.len() > 0 && (path[0] == '\\' || path[0] == '/') && (path.len() == 1 || (path[1]
        != '\\' && path[1] != '/')) {
        assert(own[0] == '/');
        assert(!names_a_drive('/'));
        let rest = own.skip(1);
        let none = Seq::<char>::empty();
        assert(own == none.push('/') + rest);
        text::law_a_separator_separates(none, rest, '/');
        let pieces = text::split(own, '/');
        assert(pieces == seq![none] + text::split(rest, '/'));
        if rest.len() > 0 {
            assert(rest[0] == own[1] && own[1] == path[1]);
            lemma_first_piece(rest);
            assert(pieces[1] == text::split(rest, '/')[0]);
        } else {
            assert(rest == none);
            assert(text::split(rest, '/') == seq![none]);
        }
        assert(!has_share(own));
    } else if path.len() > 0 && path[0] != '\\' && path[0] != '/' {
        assert(own[0] == path[0]);
        lemma_first_piece(own);
        assert(!has_share(own));
        assert(!has_drive(own)) by {
            if has_drive(own) {
                assert(own[1] == ':');
                assert(path[1] == ':');
            }
        }
    }
}

/// Slashes at the end of a path say nothing, and neither does a `.` behind a slash.
pub proof fn law_the_end_of_a_path_says_nothing(path: Seq<char>)
    requires
        path.len() > 0,
    ensures
        directory(path.push('/')) == directory(path),
        file_name(path.push('/')) == file_name(path),
        directory(path.push('/').push('.')) == directory(path),
        file_name(path.push('/').push('.')) == file_name(path),
{
    let slash = path.push('/');
    let dot = slash.push('.');
    assert(slash.drop_last() == path);
    assert(slash.len() >= 2 && slash.last() == '/');
    assert(trimmed(slash) == trimmed(path));
    assert(dot.drop_last() == slash);
    assert(dot.last() == '.' && dot[dot.len() - 2] == '/');
    assert(trimmed(dot) == trimmed(slash));
}

/// A bare name is in the directory `.`, and so is what has no parent.
pub proof fn law_a_bare_name_is_here(name: Seq<char>)
    requires
        plain_name(name),
    ensures
        directory(name) == seq!['.'],
        directory(Seq::<char>::empty()) == seq!['.'],
        directory(seq!['/']) == seq!['.'],
{
    let none = Seq::<char>::empty();
    lemma_up_to_slash(none, name);
    assert(none + name == name);
    assert(tidy(name)) by {
        if name.len() >= 2 {
            assert(name.contains(name.last()));
            assert(name.contains(name[name.len() - 2]));
        }
    }
    lemma_trimmed_is_tidy(name);
    assert(trimmed(none) == none);
    assert(name != seq!['/']) by {
        if name == seq!['/'] {
            assert(name.contains(name[0]));
        }
    }
    assert(parent(name) == Some(none));
    assert(parent(none) is None);
    let root = seq!['/'];
    assert(root.len() == 1);
    assert(trimmed(root) == root);
    assert(parent(root) is None);
}

/// `..` is not a name.
pub proof fn law_the_parent_is_not_a_name(path: Seq<char>)
    ensures
        file_name(path.push('/') + seq!['.', '.']) is None,
        file_name(seq!['.', '.']) is None,
{
    let none = Seq::<char>::empty();
    let dots = seq!['.', '.'];
    let slash = path.push('/');
    let up = slash + dots;
    assert(dots[0] == '.' && dots[1] == '.' && dots.len() == 2);
    assert(!dots.contains('/'));
    assert(up.last() == '.' && up[up.len() - 2] == '.');
    assert(tidy(up));
    lemma_trimmed_is_tidy(up);
    lemma_up_to_slash(slash, dots);
    assert(up.skip(slash.len() as int) == dots);
    assert(tidy(dots));
    lemma_trimmed_is_tidy(dots);
    lemma_up_to_slash(none, dots);
    assert(none + dots == dots);
    assert(dots.skip(0) == dots);
}

/// What two paths share is the start of both, and all of it: either one of them ends
/// there, or they differ there.
pub proof fn law_what_two_paths_share(a: Seq<ComponentView>, b: Seq<ComponentView>)
    ensures
        shared(a, b) <= a.len(),
        shared(a, b) <= b.len(),
        a.take(shared(a, b) as int) == b.take(shared(a, b) as int),
        shared(a, b) < a.len() && shared(a, b) < b.len() ==> a[shared(a, b) as int] != b[shared(
            a,
            b,
        ) as int],
    decreases a.len(),
{
    lemma_shared_start(a, b);
    if a.len() > 0 && b.len() > 0 && a[0] == b[0] {
        law_what_two_paths_share(a.skip(1), b.skip(1));
        let n = shared(a.skip(1), b.skip(1)) as int;
        if n < a.len() - 1 && n < b.len() - 1 {
            assert(a.skip(1)[n] == a[n + 1]);
            assert(b.skip(1)[n] == b[n + 1]);
        }
    }
}

/// Where two paths share nothing, a file is known by its names, in order; and of
/// components the names are those that are names.
pub proof fn law_only_names_are_left(
    root: Seq<ComponentView>,
    a: Seq<ComponentView>,
    b: Seq<ComponentView>,
    name: Seq<char>,
    other: ComponentView,
)
    requires
        !(other is Normal),
    ensures
        names(a + b) == names(a) + names(b),
        names(seq![ComponentView::Normal(name)]) == seq![name],
        names(seq![other]) == Seq::<Seq<char>>::empty(),
        root.len() == 0 || a.len() == 0 || root[0] != a[0] ==> relative_segments(root, a) == names(a),
    decreases b.len(),
{
    let none = Seq::<Seq<char>>::empty();
    let one = seq![ComponentView::Normal(name)];
    assert(one.drop_last() == Seq::<ComponentView>::empty());
    assert(names(one.drop_last()) == none);
    assert(none.push(name) == seq![name]);
    assert(seq![other].drop_last() == Seq::<ComponentView>::empty());
    assert(names(seq![other].drop_last()) == none);
    if b.len() == 0 {
        assert(a + b == a);
        assert(names(a) + names(b) == names(a));
    } else {
        assert((a + b).drop_last() == a + b.drop_last());
        assert((a + b).last() == b.last());
        law_only_names_are_left(root, a, b.drop_last(), name, other);
        assert(names(a + b) == names(a) + names(b));
    }
}

/// A Windows path with a drive has it as its first component, by its capital letter,
/// and then what follows; one on a share has the share and the root first. Any other
/// is read as a path with slashes, and where there are no drives every path is.
pub proof fn law_what_a_windows_path_starts_with(
    letter: char,
    rest: Seq<char>,
    server: Seq<char>,
    share: Seq<char>,
    path: Seq<char>,
)
    requires
        65 <= letter as int <= 90 || 97 <= letter as int <= 122,
        plain_name(server),
        plain_name(share),
    ensures
        parts(Style::Windows, seq![letter, ':'] + rest) == seq![ComponentView::Drive(capital(letter))]
            + components(text::slashed(rest)),
        capital(letter) as int == (if letter as int >= 97 {
            letter as int - 32
        } else {
            letter as int
        }),
        parts(Style::Windows, seq!['\\', '\\'] + server.push('\\') + share.push('\\') + rest)
            == seq![ComponentView::Share(server, share), ComponentView::Root] + piece_components(
            text::split(text::slashed(rest), '/'),
        ),
        path.len() > 0 && path[0] != '\\' && path[0] != '/' && (path.len() == 1 || path[1] != ':')
            ==> parts(Style::Windows, path) == components(text::slashed(path)),
        parts(Style::Unix, path) == components(path),
        relative_in(Style::Unix, path, rest) == relative(path, rest),
{
    assert('a' as int == 97 && 'z' as int == 122 && 'A' as int == 65 && 'Z' as int == 90);
    assert(names_a_drive(letter));
    let with_drive = seq![letter, ':'] + rest;
    let first = text::slashed(with_drive);
    assert(first[0] == letter && first[1] == ':');
    assert(first.skip(2) == text::slashed(rest));
    if letter as int >= 97 {
        assert(((letter as u8) - 32) as u8 as char as int == letter as int - 32);
    }
    let none = Seq::<char>::empty();
    let whole = seq!['\\', '\\'] + server.push('\\') + share.push('\\') + rest;
    let flat = text::slashed(whole);
    let tail = text::slashed(rest);
    lemma_slashed_stays(server);
    lemma_slashed_stays(share);
    let third = share.push('/') + tail;
    let second = server.push('/') + third;
    assert forall|i: int| 0 <= i < flat.len() implies flat[i] == (none.push('/') + (none.push('/')
        + second))[i] by {
        if 2 <= i < 2 + server.len() {
            assert(server.contains(server[i - 2]));
        }
        if 3 + server.len() <= i < 3 + server.len() + share.len() {
            assert(share.contains(share[i - 3 - server.len()]));
        }
    }
    assert(flat =~= none.push('/') + (none.push('/') + second));
    text::law_a_separator_separates(none, none.push('/') + second, '/');
    text::law_a_separator_separates(none, second, '/');
    text::law_a_separator_separates(server, third, '/');
    text::law_a_separator_separates(share, tail, '/');
    let pieces = text::split(flat, '/');
    assert(pieces == seq![none] + (seq![none] + (seq![server] + (seq![share] + text::split(
        tail,
        '/',
    )))));
    assert(pieces[0] == none && pieces[1] == none && pieces[2] == server && pieces[3] == share);
    assert(pieces.skip(4) == text::split(tail, '/'));
    assert(flat[0] == '/');
    assert(!names_a_drive('/'));
    if path.len() > 0 && path[0] != '\\' && path[0] != '/' && (path.len() == 1 || path[1] != ':') {
        let own = text::slashed(path);
        assert(own[0] == path[0]);
        lemma_first_piece(own);
        if path.len() > 1 {
            assert(own[1] == ':' ==> path[1] == ':');
        }
    }
}

/// On a drive, the directory of a file is that of what follows the drive, on the
/// drive, and its name is the name of that.
pub proof fn law_a_drive_stays_with_the_directory(letter: char, rest: Seq<char>)
    requires
        65 <= letter as int <= 90 || 97 <= letter as int <= 122,
        !rest.contains('\\'),
    ensures
        parent(rest) matches Some(dir) ==> directory_in(
            Style::Windows,
            seq![letter, ':'] + rest,
        ) == seq![letter, ':'] + dir,
        parent(rest) is None ==> directory_in(Style::Windows, seq![letter, ':'] + rest) == seq!['.'],
        file_name_in(Style::Windows, seq![letter, ':'] + rest) == file_name(rest),
        directory_in(Style::Unix, rest) == directory(rest),
        file_name_in(Style::Unix, rest) == file_name(rest),
{
    assert('a' as int == 97 && 'z' as int == 122 && 'A' as int == 65 && 'Z' as int == 90);
    assert(names_a_drive(letter));
    let whole = seq![letter, ':'] + rest;
    let flat = text::slashed(whole);
    lemma_slashed_stays(rest);
    assert(flat[0] == letter && flat[1] == ':');
    assert(flat.skip(2) == text::slashed(rest));
    assert(flat.take(2) == seq![letter, ':']);
}

/// The way to a file goes up once for every component of the root that the file does
/// not share, and then down over every component of the file that the root does not
/// share, whatever these are; it is written with slashes between.
pub proof fn law_the_way_goes_up_and_then_down(
    root: Seq<ComponentView>,
    file: Seq<ComponentView>,
    from: Seq<char>,
    to: Seq<char>,
    style: Style,
    i: int,
)
    requires
        shared(root, file) > 0,
    ensures
        ({
            let common = shared(root, file);
            let way = relative_segments(root, file);
            let ups = root.len() - common;
            &&& way.len() == ups + file.len() - common
            &&& 0 <= i < ups ==> way[i] == seq!['.', '.']
            &&& ups <= i < way.len() ==> way[i] == file[i - ups + common].spelled()
        }),
        relative_in(style, from, to) == text::joined(
            relative_segments(parts(style, from), parts(style, to)),
            seq!['/'],
        ),
        relative(from, to) == text::joined(
            relative_segments(components(from), components(to)),
            seq!['/'],
        ),
{
    law_what_two_paths_share(root, file);
}

/// On a share, a path that starts with a separator follows the share, and a path on a
/// share stands for itself.
pub proof fn law_a_share_stays_in_front(
    server: Seq<char>,
    share: Seq<char>,
    rest: Seq<char>,
    base: Seq<char>,
    name: Seq<char>,
)
    requires
        plain_name(server),
        plain_name(share),
        plain_name(name),
        rest.len() > 0 ==> rest[0] == '/',
        !rest.contains('\\'),
    ensures
        ({
            let front = seq!['/', '/'] + server + seq!['/'] + share;
            &&& prefix_length(front + rest) == front.len()
            &&& joined_in(Style::Windows, front + rest, seq!['/'] + name) == front + seq!['/'] + name
            &&& joined_in(Style::Windows, base, front + rest) == front + rest
        }),
{
    let none = Seq::<char>::empty();
    let front = seq!['/', '/'] + server + seq!['/'] + share;
    let whole = front + rest;
    assert(!whole.contains('\\')) by {
        if whole.contains('\\') {
            let i = choose|i: int| 0 <= i < whole.len() && whole[i] == '\\';
            if 2 <= i < 2 + server.len() {
                assert(server[i - 2] == '\\');
            } else if 3 + server.len() <= i < front.len() {
                assert(share[i - 3 - server.len()] == '\\');
            } else if i >= front.len() {
                assert(rest[i - front.len()] == '\\');
            }
        }
    }
    lemma_slashed_stays(whole);
    let second = server.push('/') + share + rest;
    assert(whole == none.push('/') + (none.push('/') + second));
    text::law_a_separator_separates(none, none.push('/') + second, '/');
    text::law_a_separator_separates(none, second, '/');
    assert(second == server.push('/') + (share + rest));
    text::law_a_separator_separates(server, share + rest, '/');
    text::law_a_separator_separates(share, share, '/');
    if rest.len() > 0 {
        let tail = rest.skip(1);
        assert(share + rest == share.push('/') + tail);
        text::law_a_separator_separates(share, tail, '/');
        assert(text::split(share + rest, '/')[0] == share);
    } else {
        assert(share + rest == share);
    }
    let pieces = text::split(whole, '/');
    assert(pieces == seq![none] + (seq![none] + (seq![server] + text::split(share + rest, '/'))));
    assert(pieces[0] == none && pieces[1] == none && pieces[2] == server && pieces[3] == share);
    assert(whole[0] == '/');
    assert(!names_a_drive('/'));
    assert(prefix_length(whole) == front.len());
    assert(whole.take(front.len() as int) == front);
    let path = seq!['/'] + name;
    assert(!path.contains('\\')) by {
        if path.contains('\\') {
            let i = choose|i: int| 0 <= i < path.len() && path[i] == '\\';
            assert(name[i - 1] == '\\');
        }
    }
    lemma_slashed_stays(path);
    assert(path == none.push('/') + name);
    text::law_a_separator_separates(none, name, '/');
    text::law_a_separator_separates(name, name, '/');
    assert(text::split(path, '/') == seq![none] + seq![name]);
    assert(text::split(path, '/').len() == 2);
    assert(path[0] == '/');
    assert(prefix_length(path) == 0);
    assert(front + path == front + seq!['/'] + name);
}

} // verus!
