//! Names that are taken from paths, and names for files.

use std::path::PathBuf;

use vstd::prelude::*;

use crate::patterns::{alphanumeric, ascii_alphanumeric};
use crate::text::{chars_of, chinese, text_eq};

verus! {

/// A path of the file system.
#[verifier::external_type_specification]
#[verifier::external_body]
pub struct ExPathBuf(std::path::PathBuf);

/// The names on a path, from the top down: one for each step from the path to what
/// `std::path::Path::parent` leaves of it in the end. A step without a name (`..`), or with
/// a name that is no Unicode text, is `None`.
pub uninterp spec fn path_names(path: std::path::PathBuf) -> Seq<Option<Seq<char>>>;

/// Calls `std::path::Path::parent`: the path without its last component, `None` if there is
/// no component to take away.
#[verifier::external_body]
fn parent_of(path: &PathBuf) -> (r: Option<PathBuf>)
    ensures
        match r {
            Some(p) => path_names(*path).len() > 0 && path_names(p) == path_names(
                *path,
            ).drop_last(),
            None => path_names(*path).len() == 0,
        },
{
    path.parent().map(|p| p.to_path_buf())
}

/// Calls `std::path::Path::file_name` and takes the name as Unicode text: the last component
/// of the path, `None` if there is none, it is no name or no Unicode text.
#[verifier::external_body]
fn name_of(path: &PathBuf) -> (r: Option<String>)
    ensures
        text_of(r) == if path_names(*path).len() > 0 {
            path_names(*path).last()
        } else {
            None
        },
{
    path.file_name().and_then(|s| s.to_str()).map(|s| s.to_string())
}

/// `std::path::Path::to_string_lossy`: the path as text.
pub uninterp spec fn path_text(path: std::path::PathBuf) -> Seq<char>;

/// Calls `std::path::Path::to_string_lossy`. The text is a function of the path.
#[verifier::external_body]
pub(crate) fn text_of_path(path: &PathBuf) -> (r: String)
    ensures
        r@ == path_text(*path),
{
    path.to_string_lossy().to_string()
}

/// The text of an optional string.
pub open spec fn text_of(s: Option<String>) -> Option<Seq<char>> {
    match s {
        Some(s) => Some(s@),
        None => None,
    }
}

/// The texts of optional strings.
pub open spec fn texts_of(v: Seq<Option<String>>) -> Seq<Option<Seq<char>>> {
    Seq::new(v.len(), |i: int| text_of(v[i]))
}

/// The names of the directories that a path leads through.
pub open spec fn dir_names(names: Seq<Option<Seq<char>>>) -> Seq<Option<Seq<char>>> {
    if names.len() == 0 {
        names
    } else {
        names.drop_last()
    }
}

/// The name above the lowest directory called `questions`.
pub open spec fn set_name(dirs: Seq<Option<Seq<char>>>) -> Option<Seq<char>>
    decreases dirs.len(),
{
    if dirs.len() == 0 {
        None
    } else if dirs.last() == Some("questions"@) {
        if dirs.len() >= 2 {
            dirs[dirs.len() - 2]
        } else {
            None
        }
    } else {
        set_name(dirs.drop_last())
    }
}

/// The name of the lowest directory, `unknown` if it has none.
pub open spec fn folder_name(dirs: Seq<Option<Seq<char>>>) -> Seq<char> {
    if dirs.len() > 0 && dirs.last() is Some {
        dirs.last()->0
    } else {
        "unknown"@
    }
}

/// The group of a page: the set above the lowest directory called `questions`, or else the
/// directory of the page.
pub open spec fn group_name(dirs: Seq<Option<Seq<char>>>) -> Seq<char> {
    match set_name(dirs) {
        Some(name) => name,
        None => folder_name(dirs),
    }
}

/// The names of the directories that `path` leads through, from the top down.
pub fn directories(path: &PathBuf) -> (r: Vec<Option<String>>)
    ensures
        texts_of(r@) == dir_names(path_names(*path)),
{
    let mut out: Vec<Option<String>> = Vec::new();
    let mut dir = match parent_of(path) {
        Some(p) => p,
        None => {
            assert(texts_of(out@) =~= path_names(*path));
            return out;
        },
    };
    assert(path_names(dir) + texts_of(out@) =~= dir_names(path_names(*path)));
    loop
        invariant
            path_names(dir) + texts_of(out@) == dir_names(path_names(*path)),
        ensures
            texts_of(out@) == dir_names(path_names(*path)),
        decreases path_names(dir).len(),
    {
        let ghost before = out@;
        match parent_of(&dir) {
            Some(up) => {
                out.insert(0, name_of(&dir));
                assert(path_names(up) + texts_of(out@) =~= path_names(dir) + texts_of(before));
                dir = up;
            },
            None => {
                assert(path_names(dir) + texts_of(out@) =~= texts_of(out@));
                break;
            },
        }
    }
    out
}

/// The name of the lowest of the directories, `unknown` if it has none.
pub fn folder_name_of(dirs: &Vec<Option<String>>) -> (r: String)
    ensures
        r@ == folder_name(texts_of(dirs@)),
{
    if dirs.len() > 0 {
        if let Some(name) = &dirs[dirs.len() - 1] {
            return name.clone();
        }
    }
    "unknown".to_string()
}

/// The group of a page that lies below the given directories.
pub fn group_name_of(dirs: &Vec<Option<String>>) -> (r: String)
    ensures
        r@ == group_name(texts_of(dirs@)),
{
    let ghost all = texts_of(dirs@);
    let mut n: usize = dirs.len();
    assert(all.take(n as int) =~= all);
    while n > 0
        invariant
            n <= dirs.len(),
            all == texts_of(dirs@),
            set_name(all) == set_name(all.take(n as int)),
        decreases n,
    {
        let ghost upto = all.take(n as int);
        assert(upto.last() == text_of(dirs@[n - 1]));
        let found = match &dirs[n - 1] {
            Some(name) => text_eq(name.as_str(), "questions"),
            None => false,
        };
        if found {
            if n >= 2 {
                assert(upto[n - 2] == text_of(dirs@[n - 2]));
                if let Some(name) = &dirs[n - 2] {
                    return name.clone();
                }
            }
            return folder_name_of(dirs);
        }
        assert(upto.drop_last() =~= all.take(n - 1));
        n -= 1;
    }
    folder_name_of(dirs)
}

/// The group of the page at `path`: the name above the lowest directory called `questions`
/// on its way, or else the name of the page's own directory.
pub fn extract_group_name(path: &PathBuf) -> (r: String)
    ensures
        r@ == group_name(dir_names(path_names(*path))),
{
    group_name_of(&directories(path))
}

/// All pages below the same set's `questions` directory belong to the set's group, however
/// deep they lie, as long as no further directory of that name comes in between.
pub proof fn lemma_group_of_set(
    above: Seq<Option<Seq<char>>>,
    set: Seq<char>,
    below: Seq<Option<Seq<char>>>,
)
    requires
        !below.contains(Some("questions"@)),
    ensures
        group_name(above + seq![Some(set), Some("questions"@)] + below) == set,
{
    lemma_set_name_below(above, set, below);
}

/// The name of the set above `questions`, as `set_name` finds it.
proof fn lemma_set_name_below(
    above: Seq<Option<Seq<char>>>,
    set: Seq<char>,
    below: Seq<Option<Seq<char>>>,
)
    requires
        !below.contains(Some("questions"@)),
    ensures
        set_name(above + seq![Some(set), Some("questions"@)] + below) == Some(set),
    decreases below.len(),
{
    let all = above + seq![Some(set), Some("questions"@)] + below;
    if below.len() > 0 {
        assert(all.last() == below[below.len() - 1]);
        let rest = below.drop_last();
        assert(all.drop_last() =~= above + seq![Some(set), Some("questions"@)] + rest);
        assert(!rest.contains(Some("questions"@))) by {
            if rest.contains(Some("questions"@)) {
                let i = choose|i: int| 0 <= i < rest.len() && rest[i] == Some("questions"@);
                assert(below[i] == Some("questions"@));
            }
        }
        lemma_set_name_below(above, set, rest);
    } else {
        assert(all.last() == Some("questions"@));
    }
}

/// The character itself where a file name may hold it, else `_`.
pub open spec fn safe_char(c: char) -> char {
    if alphanumeric(c) || c == '-' || c == '_' {
        c
    } else {
        '_'
    }
}

/// The text with every character replaced that a file name may not hold.
pub open spec fn sanitized(s: Seq<char>) -> Seq<char> {
    Seq::new(s.len(), |i: int| safe_char(s[i]))
}

/// Of the ASCII characters only letters, digits, `-` and `_`.
pub open spec fn no_special(c: char) -> bool {
    c <= '\u{7f}' ==> ascii_alphanumeric(c) || c == '-' || c == '_'
}

/// A letter or digit of ASCII, `-`, `_` or a Chinese character.
pub open spec fn ordinary(c: char) -> bool {
    ascii_alphanumeric(c) || c == '-' || c == '_' || chinese(c)
}

/// `name` with `_` for every character that is not alphanumeric, `-` or `_`. No separator
/// and no other special character of ASCII is left, and ordinary characters are kept.
pub fn sanitize_filename(name: &str) -> (r: String)
    ensures
        r@ == sanitized(name@),
        forall|i: int| 0 <= i < r@.len() ==> no_special(#[trigger] r@[i]),
        forall|i: int| 0 <= i < r@.len() && ordinary(name@[i]) ==> #[trigger] r@[i] == name@[i],
        (forall|i: int| 0 <= i < name@.len() ==> ordinary(#[trigger] name@[i])) ==> r@ == name@,
{
    let v = chars_of(name);
    let mut r = String::new();
    for i in 0..v.len()
        invariant
            v@ == name@,
            r@ == sanitized(name@).take(i as int),
            forall|j: int| 0 <= j < r@.len() ==> no_special(#[trigger] r@[j]),
            forall|j: int| 0 <= j < r@.len() && ordinary(name@[j]) ==> #[trigger] r@[j] == name@[j],
    {
        let c = v[i];
        if c.is_alphanumeric() || c == '-' || c == '_' {
            r.push(c);
        } else {
            r.push('_');
        }
        assert(r@ =~= sanitized(name@).take(i + 1));
    }
    assert(r@ =~= sanitized(name@));
    assert((forall|i: int| 0 <= i < name@.len() ==> ordinary(#[trigger] name@[i])) ==> r@ =~= name@);
    r
}

/// A sanitized name is left as it is when it is sanitized again.
pub proof fn lemma_sanitized_again(s: Seq<char>)
    ensures
        sanitized(sanitized(s)) == sanitized(s),
{
    assert(sanitized(sanitized(s)) =~= sanitized(s));
}

/// A page lies in the lowest directory of its path; one without a name is unknown.
pub proof fn lemma_folder_name(above: Seq<Option<Seq<char>>>, name: Seq<char>)
    ensures
        folder_name(above.push(Some(name))) == name,
        folder_name(above.push(None)) == "unknown"@,
        folder_name(Seq::empty()) == "unknown"@,
        dir_names(above.push(Some(name))) == above,
        dir_names(above.push(None)) == above,
        dir_names(Seq::empty()).len() == 0,
{
    assert(above.push(Some(name)).drop_last() =~= above);
    assert(above.push(None).drop_last() =~= above);
}

/// Where no directory is called `questions`, or none with a name lies above it, the group is
/// the page's own directory.
pub proof fn lemma_group_of_folder(
    above: Seq<Option<Seq<char>>>,
    below: Seq<Option<Seq<char>>>,
)
    requires
        !below.contains(Some("questions"@)),
    ensures
        group_name(below) == folder_name(below),
        group_name(seq![Some("questions"@)] + below) == folder_name(
            seq![Some("questions"@)] + below,
        ),
        group_name(above + seq![None, Some("questions"@)] + below) == folder_name(
            above + seq![None, Some("questions"@)] + below,
        ),
{
    let empty: Seq<Option<Seq<char>>> = Seq::empty();
    lemma_set_name_above(empty, below);
    assert(empty + below =~= below);
    assert(set_name(empty) is None);
    let top = seq![Some("questions"@)];
    lemma_set_name_above(top, below);
    assert(top.last() == Some("questions"@));
    let nameless = above + seq![None, Some("questions"@)];
    lemma_set_name_above(nameless, below);
    assert(nameless.last() == Some("questions"@));
    assert(nameless[nameless.len() - 2] is None);
}

/// Directories of other names do not matter below.
proof fn lemma_set_name_above(above: Seq<Option<Seq<char>>>, below: Seq<Option<Seq<char>>>)
    requires
        !below.contains(Some("questions"@)),
    ensures
        set_name(above + below) == set_name(above),
    decreases below.len(),
{
    let all = above + below;
    if below.len() > 0 {
        assert(all.last() == below[below.len() - 1]);
        let rest = below.drop_last();
        assert(all.drop_last() =~= above + rest);
        assert(!rest.contains(Some("questions"@))) by {
            if rest.contains(Some("questions"@)) {
                let i = choose|i: int| 0 <= i < rest.len() && rest[i] == Some("questions"@);
                assert(below[i] == Some("questions"@));
            }
        }
        lemma_set_name_above(above, rest);
    } else {
        assert(all =~= above);
    }
}

/// Sanitizing goes character by character: what is alphanumeric, `-` or `_` stays, and
/// everything else becomes `_`.
pub proof fn lemma_sanitized(s: Seq<char>, i: int)
    ensures
        sanitized(s).len() == s.len(),
        0 <= i < s.len() && (alphanumeric(s[i]) || s[i] == '-' || s[i] == '_') ==> sanitized(s)[i]
            == s[i],
        0 <= i < s.len() && !alphanumeric(s[i]) && s[i] != '-' ==> sanitized(s)[i] == '_',
{
}

/// Optional strings hold their texts, in their order.
pub proof fn lemma_optional_texts(s: String, v: Seq<Option<String>>, i: int)
    ensures
        text_of(Some(s)) == Some(s@),
        text_of(None) is None,
        texts_of(v).len() == v.len(),
        0 <= i < v.len() ==> texts_of(v)[i] == text_of(v[i]),
{
}

} // verus!
