//! Which font files to look for, and what to say when there are none.

use vstd::prelude::*;

use crate::archive::str_of;
use crate::text::{join_texts, joined, texts};

verus! {

/// The regular and the bold file of a font with Chinese characters.
pub open spec fn font_files() -> Seq<(Seq<char>, Seq<char>)> {
    seq![
        ("LXGWWenKai-Regular.ttf"@, "LXGWWenKai-Medium.ttf"@),
        ("NotoSansCJK-Regular.ttc"@, "NotoSansCJK-Bold.ttc"@),
        ("NotoSansCJKsc-Regular.ttc"@, "NotoSansCJKsc-Bold.ttc"@),
    ]
}

/// The directories in which fonts are looked for.
pub open spec fn font_dirs() -> Seq<Seq<char>> {
    seq![
        "/usr/share/fonts/TTF"@,
        "/usr/share/fonts/opentype/noto"@,
        "/usr/share/fonts/noto-cjk"@,
        "/usr/share/fonts/truetype/noto"@,
        "/usr/share/fonts/noto"@,
    ]
}

/// A font that may be there: its directory, its regular and its bold file.
#[derive(Debug)]
pub struct FontCandidate {
    pub dir: String,
    pub regular: String,
    pub bold: String,
}

impl View for FontCandidate {
    type V = (Seq<char>, Seq<char>, Seq<char>);

    open spec fn view(&self) -> (Seq<char>, Seq<char>, Seq<char>) {
        (self.dir@, self.regular@, self.bold@)
    }
}

/// What a list of fonts holds.
pub open spec fn font_views(fonts: Seq<FontCandidate>) -> Seq<(Seq<char>, Seq<char>, Seq<char>)> {
    Seq::new(fonts.len(), |i: int| fonts[i]@)
}

/// The fonts that may be in a directory, in the order in which they are tried.
pub open spec fn fonts_in(dir: Seq<char>) -> Seq<(Seq<char>, Seq<char>, Seq<char>)> {
    Seq::new(font_files().len(), |i: int| (dir, font_files()[i].0, font_files()[i].1))
}

/// The fonts that may be in the directories, directory by directory.
pub open spec fn fonts_in_all(dirs: Seq<Seq<char>>) -> Seq<(Seq<char>, Seq<char>, Seq<char>)>
    decreases dirs.len(),
{
    if dirs.len() == 0 {
        Seq::empty()
    } else {
        fonts_in_all(dirs.drop_last()) + fonts_in(dirs.last())
    }
}

/// The directories to look in: the one that was given, or else all of them.
pub open spec fn dirs_to_search(font_dir: Option<Seq<char>>) -> Seq<Seq<char>> {
    match font_dir {
        Some(dir) => seq![dir],
        None => font_dirs(),
    }
}

/// The regular files of the fonts.
fn regular_files() -> (r: Vec<String>)
    ensures
        texts(r@) == Seq::new(font_files().len(), |i: int| font_files()[i].0),
{
    let mut r: Vec<String> = Vec::new();
    r.push("LXGWWenKai-Regular.ttf".to_string());
    r.push("NotoSansCJK-Regular.ttc".to_string());
    r.push("NotoSansCJKsc-Regular.ttc".to_string());
    assert(texts(r@) =~= Seq::new(font_files().len(), |i: int| font_files()[i].0));
    r
}

/// The bold files of the fonts.
fn bold_files() -> (r: Vec<String>)
    ensures
        texts(r@) == Seq::new(font_files().len(), |i: int| font_files()[i].1),
{
    let mut r: Vec<String> = Vec::new();
    r.push("LXGWWenKai-Medium.ttf".to_string());
    r.push("NotoSansCJK-Bold.ttc".to_string());
    r.push("NotoSansCJKsc-Bold.ttc".to_string());
    assert(texts(r@) =~= Seq::new(font_files().len(), |i: int| font_files()[i].1));
    r
}

/// The directories to look in.
pub fn search_dirs(font_dir: Option<&str>) -> (r: Vec<String>)
    ensures
        texts(r@) == dirs_to_search(str_of(font_dir)),
{
    let mut r: Vec<String> = Vec::new();
    match font_dir {
        Some(dir) => {
            r.push(dir.to_string());
        },
        None => {
            r.push("/usr/share/fonts/TTF".to_string());
            r.push("/usr/share/fonts/opentype/noto".to_string());
            r.push("/usr/share/fonts/noto-cjk".to_string());
            r.push("/usr/share/fonts/truetype/noto".to_string());
            r.push("/usr/share/fonts/noto".to_string());
        },
    }
    assert(texts(r@) =~= dirs_to_search(str_of(font_dir)));
    r
}

/// The fonts to try, in order: directory by directory, in each the same files.
pub fn font_candidates(font_dir: Option<&str>) -> (r: Vec<FontCandidate>)
    ensures
        font_views(r@) == fonts_in_all(dirs_to_search(str_of(font_dir))),
{
    let dirs = search_dirs(font_dir);
    let regular = regular_files();
    let bold = bold_files();
    let ghost all = texts(dirs@);
    let mut r: Vec<FontCandidate> = Vec::new();
    assert(font_views(r@) =~= fonts_in_all(all.take(0)));
    for i in 0..dirs.len()
        invariant
            all == texts(dirs@),
            texts(regular@) == Seq::new(font_files().len(), |i: int| font_files()[i].0),
            texts(bold@) == Seq::new(font_files().len(), |i: int| font_files()[i].1),
            font_views(r@) == fonts_in_all(all.take(i as int)),
    {
        let ghost start = font_views(r@);
        let ghost own = fonts_in(all[i as int]);
        assert(regular@.len() == texts(regular@).len() && bold@.len() == texts(bold@).len());
        assert(start =~= start + own.take(0));
        for j in 0..regular.len()
            invariant
                i < dirs.len(),
                all == texts(dirs@),
                own == fonts_in(all[i as int]),
                regular@.len() == font_files().len(),
                bold@.len() == font_files().len(),
                texts(regular@) == Seq::new(font_files().len(), |i: int| font_files()[i].0),
                texts(bold@) == Seq::new(font_files().len(), |i: int| font_files()[i].1),
                font_views(r@) == start + own.take(j as int),
        {
            let ghost before = r@;
            let font = FontCandidate {
                dir: dirs[i].clone(),
                regular: regular[j].clone(),
                bold: bold[j].clone(),
            };
            assert(font.regular@ == texts(regular@)[j as int]);
            assert(font.bold@ == texts(bold@)[j as int]);
            r.push(font);
            assert(font_views(r@) =~= font_views(before).push(font@));
            assert(font_views(r@) =~= start + own.take(j + 1));
        }
        assert(own.take(own.len() as int) =~= own);
        assert(all.take(i + 1).drop_last() =~= all.take(i as int));
    }
    assert(all.take(all.len() as int) =~= all);
    r
}

/// The place of the first font that is there.
pub fn first_found(found: &Vec<bool>) -> (r: Option<usize>)
    ensures
        match r {
            Some(i) => i < found@.len() && found@[i as int] && forall|j: int|
                0 <= j < i ==> !found@[j],
            None => forall|j: int| 0 <= j < found@.len() ==> !found@[j],
        },
{
    for i in 0..found.len()
        invariant
            forall|j: int| 0 <= j < i ==> !found@[j],
    {
        if found[i] {
            return Some(i);
        }
    }
    None
}

/// The file for bold text: the bold one if it is there, else the regular one.
pub fn bold_file(font: &FontCandidate, bold_found: bool) -> (r: String)
    ensures
        r@ == if bold_found {
            font.bold@
        } else {
            font.regular@
        },
{
    if bold_found {
        font.bold.clone()
    } else {
        font.regular.clone()
    }
}

/// The message when no font is there.
pub open spec fn missing_font(font_dir: Option<Seq<char>>) -> Seq<char> {
    match font_dir {
        Some(dir) => "No CJK font found in "@ + dir + ". Searched for: "@ + joined(
            Seq::new(font_files().len(), |i: int| font_files()[i].0),
            ", "@,
        ),
        None => "No CJK font found. Searched in:\n"@ + joined(
            Seq::new(font_dirs().len(), |i: int| "  - "@ + font_dirs()[i]),
            "\n"@,
        ) + "\nInstall with: sudo pacman -S noto-fonts-cjk\nOr specify a font directory with --font-dir <path>"@,
    }
}

/// The message when no font is there: what was looked for in the given directory, or where
/// fonts were looked for.
pub fn missing_font_message(font_dir: Option<&str>) -> (r: String)
    ensures
        r@ == missing_font(str_of(font_dir)),
{
    match font_dir {
        Some(dir) => {
            let mut r = "No CJK font found in ".to_string();
            r.append(dir);
            r.append(". Searched for: ");
            let files = join_texts(&regular_files(), ", ");
            r.append(files.as_str());
            r
        },
        None => {
            let dirs = search_dirs(None);
            let ghost all = Seq::new(font_dirs().len(), |i: int| "  - "@ + font_dirs()[i]);
            let mut lines: Vec<String> = Vec::new();
            for i in 0..dirs.len()
                invariant
                    texts(dirs@) == font_dirs(),
                    all == Seq::new(font_dirs().len(), |i: int| "  - "@ + font_dirs()[i]),
                    texts(lines@) == all.take(i as int),
            {
                let ghost before = lines@;
                let mut line = "  - ".to_string();
                line.append(dirs[i].as_str());
                assert(dirs@[i as int]@ == texts(dirs@)[i as int]);
                lines.push(line);
                assert(texts(lines@) =~= texts(before).push(line@));
                assert(texts(lines@) =~= all.take(i + 1));
            }
            assert(dirs@.len() == texts(dirs@).len());
            assert(all.take(all.len() as int) =~= all);
            let mut r = "No CJK font found. Searched in:\n".to_string();
            let list = join_texts(&lines, "\n");
            r.append(list.as_str());
            r.append(
                "\nInstall with: sudo pacman -S noto-fonts-cjk\nOr specify a font directory with --font-dir <path>",
            );
            r
        },
    }
}

/// In every directory, directory by directory, the same three fonts are tried in the same
/// order, each with its own bold file.
pub proof fn lemma_fonts(dirs: Seq<Seq<char>>, d: int)
    requires
        0 <= d < dirs.len(),
    ensures
        fonts_in_all(dirs).len() == 3 * dirs.len(),
        fonts_in_all(dirs)[3 * d] == (
            dirs[d],
            "LXGWWenKai-Regular.ttf"@,
            "LXGWWenKai-Medium.ttf"@,
        ),
        fonts_in_all(dirs)[3 * d + 1] == (
            dirs[d],
            "NotoSansCJK-Regular.ttc"@,
            "NotoSansCJK-Bold.ttc"@,
        ),
        fonts_in_all(dirs)[3 * d + 2] == (
            dirs[d],
            "NotoSansCJKsc-Regular.ttc"@,
            "NotoSansCJKsc-Bold.ttc"@,
        ),
    decreases dirs.len(),
{
    let init = dirs.drop_last();
    if init.len() > 0 {
        if d < init.len() {
            lemma_fonts(init, d);
        } else {
            lemma_fonts(init, 0);
        }
    } else {
        assert(fonts_in_all(init).len() == 0);
    }
    assert(fonts_in(dirs.last()).len() == 3);
}

/// A given directory is the only one to be searched; else five directories are, in this order.
pub proof fn lemma_dirs(dir: Seq<char>)
    ensures
        dirs_to_search(Some(dir)) == seq![dir],
        dirs_to_search(None) == seq![
            "/usr/share/fonts/TTF"@,
            "/usr/share/fonts/opentype/noto"@,
            "/usr/share/fonts/noto-cjk"@,
            "/usr/share/fonts/truetype/noto"@,
            "/usr/share/fonts/noto"@,
        ],
{
}

/// What a list of fonts holds, one by one.
pub proof fn lemma_font_views(fonts: Seq<FontCandidate>, i: int)
    ensures
        font_views(fonts).len() == fonts.len(),
        0 <= i < fonts.len() ==> font_views(fonts)[i] == (
            fonts[i].dir@,
            fonts[i].regular@,
            fonts[i].bold@,
        ),
{
}

/// Without a font the message names what was looked for in the given directory, or where fonts
/// were looked for.
pub proof fn lemma_missing_font(dir: Seq<char>)
    ensures
        missing_font(Some(dir)) == "No CJK font found in "@ + dir + ". Searched for: "@ + joined(
            seq![
                "LXGWWenKai-Regular.ttf"@,
                "NotoSansCJK-Regular.ttc"@,
                "NotoSansCJKsc-Regular.ttc"@,
            ],
            ", "@,
        ),
        missing_font(None) == "No CJK font found. Searched in:\n"@ + joined(
            dirs_to_search(None).map_values(|d: Seq<char>| "  - "@ + d),
            "\n"@,
        )
            + "\nInstall with: sudo pacman -S noto-fonts-cjk\nOr specify a font directory with --font-dir <path>"@,
{
    assert(Seq::new(font_files().len(), |i: int| font_files()[i].0) =~= seq![
        "LXGWWenKai-Regular.ttf"@,
        "NotoSansCJK-Regular.ttc"@,
        "NotoSansCJKsc-Regular.ttc"@,
    ]);
    assert(Seq::new(font_dirs().len(), |i: int| "  - "@ + font_dirs()[i]) =~= dirs_to_search(
        None,
    ).map_values(|d: Seq<char>| "  - "@ + d));
}

} // verus!
