//! What an input is, and where an archive may write when it is extracted.

use vstd::prelude::*;

use crate::text::text_eq;

verus! {

/// A component of a path; names are held as bytes.
#[derive(Debug)]
pub enum PathPart {
    Prefix(Vec<u8>),
    Root,
    Current,
    Parent,
    Name(Vec<u8>),
}

/// What a component of a path is.
pub enum PartView {
    Prefix(Seq<u8>),
    Root,
    Current,
    Parent,
    Name(Seq<u8>),
}

impl View for PathPart {
    type V = PartView;

    open spec fn view(&self) -> PartView {
        match self {
            PathPart::Prefix(b) => PartView::Prefix(b@),
            PathPart::Root => PartView::Root,
            PathPart::Current => PartView::Current,
            PathPart::Parent => PartView::Parent,
            PathPart::Name(b) => PartView::Name(b@),
        }
    }
}

/// What the components of a path are.
pub open spec fn part_views(parts: Seq<PathPart>) -> Seq<PartView> {
    Seq::new(parts.len(), |i: int| parts[i]@)
}

/// Whether two byte strings are equal.
fn bytes_eq(a: &Vec<u8>, b: &Vec<u8>) -> (r: bool)
    ensures
        r == (a@ == b@),
{
    if a.len() != b.len() {
        return false;
    }
    for i in 0..a.len()
        invariant
            a.len() == b.len(),
            forall|j: int| 0 <= j < i ==> a@[j] == b@[j],
    {
        if a[i] != b[i] {
            return false;
        }
    }
    assert(a@ =~= b@);
    true
}

/// Whether two components are the same.
fn part_eq(a: &PathPart, b: &PathPart) -> (r: bool)
    ensures
        r == (a@ == b@),
{
    match (a, b) {
        (PathPart::Prefix(x), PathPart::Prefix(y)) => bytes_eq(x, y),
        (PathPart::Root, PathPart::Root) => true,
        (PathPart::Current, PathPart::Current) => true,
        (PathPart::Parent, PathPart::Parent) => true,
        (PathPart::Name(x), PathPart::Name(y)) => bytes_eq(x, y),
        _ => false,
    }
}

/// Why an archive's entry is not extracted.
#[derive(Debug, Clone, Copy, PartialEq, Eq, Structural)]
pub enum PathTraversal {
    /// The entry has an absolute path.
    Absolute,
    /// The path climbs out of the destination with `..`.
    Escapes,
    /// The path does not lie below the destination at all.
    Outside,
}

/// `out` begins with all of `dest`.
pub open spec fn lies_below(dest: Seq<PartView>, out: Seq<PartView>) -> bool {
    dest.len() <= out.len() && out.take(dest.len() as int) == dest
}

/// What is wrong with extracting an entry to `out` when everything has to stay below `dest`.
pub open spec fn traversal(
    absolute: bool,
    dest: Seq<PartView>,
    out: Seq<PartView>,
) -> Option<PathTraversal> {
    if absolute {
        Some(PathTraversal::Absolute)
    } else if !lies_below(dest, out) {
        Some(PathTraversal::Outside)
    } else if out.skip(dest.len() as int).contains(PartView::Parent) {
        Some(PathTraversal::Escapes)
    } else {
        None
    }
}

/// Whether an entry of an archive may be extracted to `out`, a path that has to stay below
/// `dest`; `absolute` says whether the entry's own path is absolute.
pub fn check_entry_path(absolute: bool, dest: &Vec<PathPart>, out: &Vec<PathPart>) -> (r: Result<
    (),
    PathTraversal,
>)
    ensures
        match r {
            Ok(()) => traversal(absolute, part_views(dest@), part_views(out@)) is None,
            Err(e) => traversal(absolute, part_views(dest@), part_views(out@)) == Some(e),
        },
{
    let ghost d = part_views(dest@);
    let ghost o = part_views(out@);
    if absolute {
        return Err(PathTraversal::Absolute);
    }
    if dest.len() > out.len() {
        return Err(PathTraversal::Outside);
    }
    for i in 0..dest.len()
        invariant
            d == part_views(dest@),
            o == part_views(out@),
            dest.len() <= out.len(),
            !absolute,
            forall|j: int| 0 <= j < i ==> d[j] == o[j],
    {
        if !part_eq(&dest[i], &out[i]) {
            assert(o.take(d.len() as int)[i as int] != d[i as int]);
            return Err(PathTraversal::Outside);
        }
    }
    assert(o.take(d.len() as int) =~= d);
    for i in dest.len()..out.len()
        invariant
            d == part_views(dest@),
            o == part_views(out@),
            dest.len() <= out.len(),
            !absolute,
            lies_below(d, o),
            forall|j: int| dest.len() <= j < i ==> o[j] != PartView::Parent,
    {
        if part_eq(&out[i], &PathPart::Parent) {
            assert(o.skip(d.len() as int)[i - d.len()] == PartView::Parent);
            return Err(PathTraversal::Escapes);
        }
    }
    Ok(())
}

impl PathTraversal {
    /// The beginning of the message about an entry that is not extracted.
    pub open spec fn reason(self) -> Seq<char> {
        match self {
            PathTraversal::Absolute => "Path traversal: absolute path in archive: "@,
            PathTraversal::Escapes => "Path traversal: path escapes destination: "@,
            PathTraversal::Outside => "Path traversal: path outside destination: "@,
        }
    }

    /// The message about the entry called `name`, which is not extracted.
    pub fn message(&self, name: &str) -> (r: String)
        ensures
            r@ == self.reason() + name@,
    {
        let mut r = match self {
            PathTraversal::Absolute => "Path traversal: absolute path in archive: ".to_string(),
            PathTraversal::Escapes => "Path traversal: path escapes destination: ".to_string(),
            PathTraversal::Outside => "Path traversal: path outside destination: ".to_string(),
        };
        r.append(name);
        r
    }
}

/// Where a path leads when `.` stays and `..` goes one step up: from a root or a prefix there
/// is no way up, and where there is no step to take back, `..` remains.
pub open spec fn resolved(parts: Seq<PartView>) -> Seq<PartView>
    decreases parts.len(),
{
    if parts.len() == 0 {
        Seq::empty()
    } else {
        let before = resolved(parts.drop_last());
        match parts.last() {
            PartView::Current => before,
            PartView::Parent => if before.len() == 0 || before.last() is Parent {
                before.push(PartView::Parent)
            } else if before.last() is Name {
                before.drop_last()
            } else {
                before
            },
            p => before.push(p),
        }
    }
}

/// A path to which an entry may be extracted leads to the destination or below it.
pub proof fn lemma_extracted_below(dest: Seq<PartView>, out: Seq<PartView>)
    requires
        traversal(false, dest, out) is None,
    ensures
        lies_below(resolved(dest), resolved(out)),
{
    let rel = out.skip(dest.len() as int);
    assert(out =~= dest + rel);
    lemma_resolved_below(dest, rel);
}

/// Without `..` a path only leads further down.
proof fn lemma_resolved_below(dest: Seq<PartView>, rel: Seq<PartView>)
    requires
        !rel.contains(PartView::Parent),
    ensures
        lies_below(resolved(dest), resolved(dest + rel)),
    decreases rel.len(),
{
    if rel.len() == 0 {
        assert(dest + rel =~= dest);
        assert(resolved(dest).take(resolved(dest).len() as int) =~= resolved(dest));
    } else {
        let init = rel.drop_last();
        assert((dest + rel).drop_last() =~= dest + init);
        assert(!init.contains(PartView::Parent)) by {
            if init.contains(PartView::Parent) {
                let i = choose|i: int| 0 <= i < init.len() && init[i] == PartView::Parent;
                assert(rel[i] == PartView::Parent);
            }
        }
        lemma_resolved_below(dest, init);
        assert(rel[rel.len() - 1] != PartView::Parent);
        let before = resolved(dest + init);
        assert(before.push(rel.last()).take(resolved(dest).len() as int) =~= before.take(
            resolved(dest).len() as int,
        ));
    }
}

/// The kinds of input.
#[derive(Debug, Clone, Copy, PartialEq, Eq, Structural)]
pub enum InputKind {
    /// A `.zip` archive.
    Zip,
    /// A `.7z` archive.
    SevenZip,
    /// A directory.
    Directory,
    /// A single page.
    Page,
}

/// The text of an optional string slice.
pub open spec fn str_of(s: Option<&str>) -> Option<Seq<char>> {
    match s {
        Some(s) => Some(s@),
        None => None,
    }
}

/// The kind of an input, by what it is in the file system, its extension and its name.
pub open spec fn kind_of(
    is_file: bool,
    is_dir: bool,
    extension: Option<Seq<char>>,
    name: Option<Seq<char>>,
) -> Option<InputKind> {
    if is_file && extension == Some("zip"@) {
        Some(InputKind::Zip)
    } else if is_file && extension == Some("7z"@) {
        Some(InputKind::SevenZip)
    } else if is_dir {
        Some(InputKind::Directory)
    } else if is_file && name == Some("questionData.js"@) {
        Some(InputKind::Page)
    } else {
        None
    }
}

/// Whether an optional text is the given one.
fn is_text(s: Option<&str>, t: &str) -> (r: bool)
    ensures
        r == (str_of(s) == Some(t@)),
{
    match s {
        Some(s) => text_eq(s, t),
        None => false,
    }
}

/// The kind of an input; `None` for anything that is no input.
pub fn input_kind(is_file: bool, is_dir: bool, extension: Option<&str>, name: Option<&str>) -> (r:
    Option<InputKind>)
    ensures
        r == kind_of(is_file, is_dir, str_of(extension), str_of(name)),
{
    if is_file && is_text(extension, "zip") {
        Some(InputKind::Zip)
    } else if is_file && is_text(extension, "7z") {
        Some(InputKind::SevenZip)
    } else if is_dir {
        Some(InputKind::Directory)
    } else if is_file && is_page_name(name) {
        Some(InputKind::Page)
    } else {
        None
    }
}

/// Whether a file of this name is a page.
pub fn is_page_name(name: Option<&str>) -> (r: bool)
    ensures
        r == (str_of(name) == Some("questionData.js"@)),
{
    is_text(name, "questionData.js")
}

/// An entry with an absolute path is refused; any other is extracted if it lies below the
/// destination without a `..` on its way, is refused as escaping if there is one, and as
/// outside if it does not begin with the destination.
pub proof fn lemma_traversal(dest: Seq<PartView>, rel: Seq<PartView>, out: Seq<PartView>)
    ensures
        traversal(true, dest, out) == Some(PathTraversal::Absolute),
        rel.contains(PartView::Parent) ==> traversal(false, dest, dest + rel) == Some(
            PathTraversal::Escapes,
        ),
        !rel.contains(PartView::Parent) ==> traversal(false, dest, dest + rel) is None,
        (forall|r: Seq<PartView>| out != #[trigger] (dest + r)) ==> traversal(false, dest, out)
            == Some(PathTraversal::Outside),
{
    assert((dest + rel).take(dest.len() as int) =~= dest);
    assert((dest + rel).skip(dest.len() as int) =~= rel);
    if lies_below(dest, out) {
        let r = out.skip(dest.len() as int);
        assert(dest + r =~= out);
    }
}

/// What an input is: a file by its extension, a directory whatever its name, and any other file
/// only by the name of a page.
pub proof fn lemma_kinds(
    is_file: bool,
    is_dir: bool,
    extension: Option<Seq<char>>,
    name: Option<Seq<char>>,
)
    ensures
        is_file && extension == Some("zip"@) ==> kind_of(is_file, is_dir, extension, name) == Some(
            InputKind::Zip,
        ),
        is_file && extension == Some("7z"@) ==> kind_of(is_file, is_dir, extension, name) == Some(
            InputKind::SevenZip,
        ),
        is_dir && !is_file ==> kind_of(is_file, is_dir, extension, name) == Some(
            InputKind::Directory,
        ),
        is_file && !is_dir && extension != Some("zip"@) && extension != Some("7z"@) && name == Some(
            "questionData.js"@,
        ) ==> kind_of(is_file, is_dir, extension, name) == Some(InputKind::Page),
        is_file && !is_dir && extension != Some("zip"@) && extension != Some("7z"@) && name != Some(
            "questionData.js"@,
        ) ==> kind_of(is_file, is_dir, extension, name) is None,
        !is_file && !is_dir ==> kind_of(is_file, is_dir, extension, name) is None,
{
    reveal_strlit("zip");
    reveal_strlit("7z");
    assert("zip"@.len() != "7z"@.len());
}

/// What the components of a path are, one by one.
pub proof fn lemma_part_views(parts: Seq<PathPart>, i: int)
    ensures
        part_views(parts).len() == parts.len(),
        0 <= i < parts.len() ==> part_views(parts)[i] == match parts[i] {
            PathPart::Prefix(b) => PartView::Prefix(b@),
            PathPart::Root => PartView::Root,
            PathPart::Current => PartView::Current,
            PathPart::Parent => PartView::Parent,
            PathPart::Name(b) => PartView::Name(b@),
        },
{
}

/// An optional string slice holds its text.
pub proof fn lemma_str_of(s: &str)
    ensures
        str_of(Some(s)) == Some(s@),
        str_of(None) is None,
{
}

} // verus!
