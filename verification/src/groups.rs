//! Collecting entries by group, and naming the files of the groups.

use vstd::prelude::*;

use crate::archive::{str_of, InputKind};
use crate::entry::{entry_views, Entry, EntryView};
use crate::paths::{sanitize_filename, sanitized};
use crate::text::{
    chars_of, decimal, is_text_le, lemma_decimal_injective, lemma_text_le_total,
    lemma_text_le_transitive, push_decimal, text_eq, text_le,
};

verus! {

/// What a list of groups holds: each group's name and its entries.
pub open spec fn group_views(groups: Seq<(String, Vec<Entry>)>) -> Seq<
    (Seq<char>, Seq<EntryView>),
> {
    Seq::new(groups.len(), |i: int| (groups[i].0@, entry_views(groups[i].1@)))
}

/// The groups come in the order of their names, no name twice.
pub open spec fn names_increase(groups: Seq<(Seq<char>, Seq<EntryView>)>) -> bool {
    forall|i: int, j: int|
        #![trigger groups[i], groups[j]]
        0 <= i < j < groups.len() ==> text_le(groups[i].0, groups[j].0) && groups[i].0
            != groups[j].0
}

/// The groups with entries added to the one called `name`, which is put at its place by the
/// order of names if it is new.
pub open spec fn extended(
    groups: Seq<(Seq<char>, Seq<EntryView>)>,
    name: Seq<char>,
    entries: Seq<EntryView>,
) -> Seq<(Seq<char>, Seq<EntryView>)>
    decreases groups.len(),
{
    if groups.len() == 0 || !text_le(name, groups.last().0) {
        groups.push((name, entries))
    } else if groups.last().0 == name {
        groups.drop_last().push((name, groups.last().1 + entries))
    } else {
        extended(groups.drop_last(), name, entries).push(groups.last())
    }
}

/// The entries of the group called `name`; none if there is no such group.
pub open spec fn entries_of(groups: Seq<(Seq<char>, Seq<EntryView>)>, name: Seq<char>) -> Seq<
    EntryView,
>
    decreases groups.len(),
{
    if groups.len() == 0 {
        Seq::empty()
    } else if groups.last().0 == name {
        groups.last().1
    } else {
        entries_of(groups.drop_last(), name)
    }
}

/// The number of entries in all groups together.
pub open spec fn entry_total(groups: Seq<(Seq<char>, Seq<EntryView>)>) -> nat
    decreases groups.len(),
{
    if groups.len() == 0 {
        0
    } else {
        entry_total(groups.drop_last()) + groups.last().1.len()
    }
}

/// The entries of all pages by group, the groups in the order of their names.
pub struct Groups {
    groups: Vec<(String, Vec<Entry>)>,
}

impl View for Groups {
    type V = Seq<(Seq<char>, Seq<EntryView>)>;

    closed spec fn view(&self) -> Seq<(Seq<char>, Seq<EntryView>)> {
        group_views(self.groups@)
    }
}

impl Groups {
    /// The groups come in the order of their names, no name twice.
    pub open spec fn wf(&self) -> bool {
        names_increase(self@)
    }

    /// No groups.
    pub fn new() -> (r: Groups)
        ensures
            r@.len() == 0,
            r.wf(),
    {
        Groups { groups: Vec::new() }
    }

    /// Adds entries to the group called `name`, behind those that it has already.
    pub fn add(&mut self, name: String, entries: Vec<Entry>)
        requires
            old(self).wf(),
        ensures
            final(self)@ == extended(old(self)@, name@, entry_views(entries@)),
            final(self).wf(),
    {
        proof {
            lemma_extended_increase(self@, name@, entry_views(entries@));
        }
        add_entries(&mut self.groups, name, entries);
    }

    /// The number of groups.
    pub fn len(&self) -> (r: usize)
        ensures
            r == self@.len(),
    {
        self.groups.len()
    }

    /// The number of entries in all groups together.
    pub fn total(&self) -> (r: u128)
        ensures
            r == entry_total(self@),
    {
        let mut n: u128 = 0;
        for i in 0..self.groups.len()
            invariant
                n == entry_total(self@.take(i as int)),
                n <= i * usize::MAX,
        {
            assert(self@.take(i + 1).drop_last() =~= self@.take(i as int));
            assert(self@.take(i + 1).last() == self@[i as int]);
            assert(i * usize::MAX + usize::MAX <= u128::MAX) by (nonlinear_arith)
                requires
                    0 <= i < usize::MAX,
                    usize::MAX <= u64::MAX,
            ;
            assert((i + 1) * usize::MAX == i * usize::MAX + usize::MAX) by (nonlinear_arith);
            n += self.groups[i].1.len() as u128;
        }
        assert(self@.take(self@.len() as int) =~= self@);
        n
    }

    /// The groups in the order of their names.
    pub fn into_groups(self) -> (r: Vec<(String, Vec<Entry>)>)
        ensures
            group_views(r@) == self@,
    {
        self.groups
    }
}

/// Adds entries to the group called `name`.
fn add_entries(groups: &mut Vec<(String, Vec<Entry>)>, name: String, entries: Vec<Entry>)
    ensures
        group_views(final(groups)@) == extended(
            group_views(old(groups)@),
            name@,
            entry_views(entries@),
        ),
{
    let ghost all = group_views(groups@);
    let ghost es = entry_views(entries@);
    let mut pos: usize = groups.len();
    assert(all.take(pos as int) =~= all);
    assert(extended(all, name@, es) =~= extended(all.take(pos as int), name@, es) + all.skip(
        pos as int,
    ));
    while pos > 0
        invariant
            pos <= groups.len(),
            all == group_views(groups@),
            extended(all, name@, es) == extended(all.take(pos as int), name@, es) + all.skip(
                pos as int,
            ),
        ensures
            pos <= groups.len(),
            extended(all, name@, es) == extended(all.take(pos as int), name@, es) + all.skip(
                pos as int,
            ),
            pos == 0 || !text_le(name@, all[pos - 1].0) || name@ == all[pos - 1].0,
        decreases pos,
    {
        let ghost before = all.take(pos as int);
        assert(before.last() == all[pos - 1]);
        if !is_text_le(name.as_str(), groups[pos - 1].0.as_str()) {
            break;
        }
        if text_eq(name.as_str(), groups[pos - 1].0.as_str()) {
            break;
        }
        assert(before.drop_last() =~= all.take(pos - 1));
        assert(extended(before.drop_last(), name@, es).push(before.last()) + all.skip(pos as int)
            =~= extended(all.take(pos - 1), name@, es) + all.skip(pos - 1));
        pos -= 1;
    }
    let ghost before = all.take(pos as int);
    if pos > 0 && text_eq(name.as_str(), groups[pos - 1].0.as_str()) {
        proof {
            lemma_text_le_total(name@, name@);
            assert(before.last() == all[pos - 1]);
            assert(before.drop_last().push((name@, all[pos - 1].1 + es)) + all.skip(pos as int)
                =~= all.update(pos - 1, (name@, all[pos - 1].1 + es)));
        }
        let (own_name, mut list) = groups.remove(pos - 1);
        let ghost had = list@;
        let mut entries = entries;
        list.append(&mut entries);
        assert(entry_views(list@) =~= entry_views(had) + es);
        groups.insert(pos - 1, (own_name, list));
        assert(group_views(groups@) =~= all.update(pos - 1, (name@, all[pos - 1].1 + es)));
    } else {
        proof {
            if pos > 0 {
                assert(before.last() == all[pos - 1]);
            }
            assert(before.push((name@, es)) + all.skip(pos as int) =~= all.insert(
                pos as int,
                (name@, es),
            ));
        }
        groups.insert(pos, (name, entries));
        assert(group_views(groups@) =~= all.insert(pos as int, (name@, es)));
    }
}

/// Adding entries keeps the order of names, and adds no name but that of the entries' group.
proof fn lemma_extended_increase(
    groups: Seq<(Seq<char>, Seq<EntryView>)>,
    name: Seq<char>,
    entries: Seq<EntryView>,
)
    requires
        names_increase(groups),
    ensures
        names_increase(extended(groups, name, entries)),
        forall|i: int|
            0 <= i < extended(groups, name, entries).len() ==> (#[trigger] extended(
                groups,
                name,
                entries,
            )[i]).0 == name || exists|j: int|
                0 <= j < groups.len() && groups[j].0 == extended(groups, name, entries)[i].0,
    decreases groups.len(),
{
    let r = extended(groups, name, entries);
    if groups.len() == 0 || !text_le(name, groups.last().0) {
        assert forall|i: int| 0 <= i < groups.len() implies text_le((#[trigger] groups[i]).0, name)
            && groups[i].0 != name by {
            let last = groups[groups.len() - 1].0;
            lemma_text_le_total(name, last);
            if i < groups.len() - 1 {
                lemma_text_le_transitive(groups[i].0, last, name);
            }
        }
        assert forall|i: int| 0 <= i < r.len() implies (#[trigger] r[i]).0 == name || exists|j: int|
            0 <= j < groups.len() && groups[j].0 == r[i].0 by {
            if i < groups.len() {
                assert(groups[i].0 == r[i].0);
            }
        }
    } else if groups.last().0 == name {
        assert forall|i: int| 0 <= i < r.len() implies (#[trigger] r[i]).0 == groups[i].0 by {}
    } else {
        let init = groups.drop_last();
        assert(names_increase(init));
        lemma_extended_increase(init, name, entries);
        let p = extended(init, name, entries);
        assert forall|i: int| 0 <= i < p.len() implies text_le((#[trigger] p[i]).0, groups.last().0)
            && p[i].0 != groups.last().0 by {
            if p[i].0 != name {
                let j = choose|j: int| 0 <= j < init.len() && init[j].0 == p[i].0;
                assert(groups[j].0 == p[i].0 && j < groups.len() - 1);
                assert(text_le(groups[j].0, groups[groups.len() - 1].0));
            }
        }
        assert forall|i: int| 0 <= i < r.len() implies (#[trigger] r[i]).0 == name || exists|j: int|
            0 <= j < groups.len() && groups[j].0 == r[i].0 by {
            if i < p.len() {
                assert(r[i] == p[i]);
                if p[i].0 != name {
                    let j = choose|j: int| 0 <= j < init.len() && init[j].0 == p[i].0;
                    assert(groups[j].0 == p[i].0);
                }
            } else {
                assert(groups[groups.len() - 1].0 == r[i].0);
            }
        }
    }
}

/// What adding entries does: the group gets them behind its own, every other group stays as
/// it is, and the total grows by their number.
pub proof fn lemma_extended(
    groups: Seq<(Seq<char>, Seq<EntryView>)>,
    name: Seq<char>,
    entries: Seq<EntryView>,
    other: Seq<char>,
)
    requires
        names_increase(groups),
        other != name,
    ensures
        entries_of(extended(groups, name, entries), name) == entries_of(groups, name) + entries,
        entries_of(extended(groups, name, entries), other) == entries_of(groups, other),
        entry_total(extended(groups, name, entries)) == entry_total(groups) + entries.len(),
    decreases groups.len(),
{
    let r = extended(groups, name, entries);
    if groups.len() == 0 || !text_le(name, groups.last().0) {
        assert(r.drop_last() =~= groups);
        lemma_absent(groups, name);
        assert(entries_of(groups, name) + entries =~= entries);
    } else if groups.last().0 == name {
        assert(r.drop_last() =~= groups.drop_last());
    } else {
        assert(names_increase(groups.drop_last()));
        lemma_extended(groups.drop_last(), name, entries, other);
        assert(r.drop_last() =~= extended(groups.drop_last(), name, entries));
    }
}

/// Behind the last name there is no group.
proof fn lemma_absent(groups: Seq<(Seq<char>, Seq<EntryView>)>, name: Seq<char>)
    requires
        names_increase(groups),
        groups.len() == 0 || !text_le(name, groups.last().0),
    ensures
        entries_of(groups, name) == Seq::<EntryView>::empty(),
    decreases groups.len(),
{
    if groups.len() > 0 {
        lemma_text_le_total(name, name);
        let init = groups.drop_last();
        assert(names_increase(init));
        if init.len() > 0 {
            assert(text_le(groups[groups.len() - 2].0, groups[groups.len() - 1].0));
            if text_le(name, init.last().0) {
                lemma_text_le_transitive(name, init.last().0, groups.last().0);
            }
        }
        lemma_absent(init, name);
    }
}

/// A hexadecimal digit.
pub open spec fn hex_digit(c: char) -> bool {
    ('0' <= c <= '9') || ('a' <= c <= 'f') || ('A' <= c <= 'F')
}

/// The label of a group in its file's name: its own name, made safe, or the number of the
/// group where that consists of hexadecimal digits only.
pub open spec fn label(group: Seq<char>, index: nat) -> Seq<char> {
    let safe = sanitized(group);
    if forall|i: int| 0 <= i < safe.len() ==> hex_digit(#[trigger] safe[i]) {
        "set"@ + decimal(index + 1)
    } else {
        safe
    }
}

/// The label of a group in its file's name.
pub fn group_label(group: &str, index: usize) -> (r: String)
    ensures
        r@ == label(group@, index as nat),
{
    let safe = sanitize_filename(group);
    let v = chars_of(safe.as_str());
    for i in 0..v.len()
        invariant
            v@ == safe@,
            safe@ == sanitized(group@),
            forall|j: int| 0 <= j < i ==> hex_digit(#[trigger] v@[j]),
    {
        let c = v[i];
        if !(('0' <= c && c <= '9') || ('a' <= c && c <= 'f') || ('A' <= c && c <= 'F')) {
            return safe;
        }
    }
    let mut r = "set".to_string();
    push_decimal(&mut r, index as u128 + 1);
    r
}

/// Numbered groups have different labels.
pub proof fn lemma_numbers_differ(a: nat, b: nat)
    requires
        a != b,
    ensures
        "set"@ + decimal(a + 1) != "set"@ + decimal(b + 1),
{
    if "set"@ + decimal(a + 1) == "set"@ + decimal(b + 1) {
        let n = "set"@.len() as int;
        assert(("set"@ + decimal(a + 1)).skip(n) =~= decimal(a + 1));
        assert(("set"@ + decimal(b + 1)).skip(n) =~= decimal(b + 1));
        lemma_decimal_injective(a + 1, b + 1);
    }
}

/// The value, or else a default.
pub open spec fn text_or(s: Option<Seq<char>>, default: Seq<char>) -> Seq<char> {
    match s {
        Some(s) => s,
        None => default,
    }
}

/// The name of a group's file: the wanted name where there is only one group, else its stem,
/// the group's label and its extension.
pub open spec fn file_name(
    single: bool,
    output: Seq<char>,
    stem: Option<Seq<char>>,
    extension: Option<Seq<char>>,
    group: Seq<char>,
    index: nat,
) -> Seq<char> {
    if single {
        output
    } else {
        text_or(stem, "qa_output"@) + "_"@ + label(group, index) + "."@ + text_or(
            extension,
            "md"@,
        )
    }
}

/// The name of the file for the group with the given name and index, where `output` is the
/// wanted name, `stem` and `extension` its parts.
pub fn output_file_name(
    single: bool,
    output: &str,
    stem: Option<&str>,
    extension: Option<&str>,
    group: &str,
    index: usize,
) -> (r: String)
    ensures
        r@ == file_name(
            single,
            output@,
            str_of(stem),
            str_of(extension),
            group@,
            index as nat,
        ),
{
    if single {
        return output.to_string();
    }
    let mut r = match stem {
        Some(s) => s.to_string(),
        None => "qa_output".to_string(),
    };
    r.append("_");
    let name = group_label(group, index);
    r.append(name.as_str());
    r.append(".");
    match extension {
        Some(s) => {
            r.append(s);
        },
        None => {
            r.append("md");
        },
    }
    r
}

/// The names of the files for the groups with the given names, in order: the wanted name where
/// there is at most one group, else a name of its own for each.
pub fn output_names(
    output: &str,
    stem: Option<&str>,
    extension: Option<&str>,
    names: &Vec<String>,
) -> (r: Vec<String>)
    ensures
        r@.len() == names@.len(),
        forall|i: int|
            0 <= i < names@.len() ==> (#[trigger] r@[i])@ == file_name(
                names@.len() <= 1,
                output@,
                str_of(stem),
                str_of(extension),
                names@[i]@,
                i as nat,
            ),
{
    let single = names.len() <= 1;
    let mut r: Vec<String> = Vec::new();
    for i in 0..names.len()
        invariant
            single == (names@.len() <= 1),
            r@.len() == i,
            forall|j: int|
                0 <= j < i ==> (#[trigger] r@[j])@ == file_name(
                    single,
                    output@,
                    str_of(stem),
                    str_of(extension),
                    names@[j]@,
                    j as nat,
                ),
    {
        r.push(output_file_name(single, output, stem, extension, names[i].as_str(), i));
    }
    r
}

/// The directory of the files: that of an archive, a directory itself, and the current one for
/// a single page or where an archive has none.
pub open spec fn files_dir(kind: InputKind, input: Seq<char>, parent: Option<Seq<char>>) -> Seq<
    char,
> {
    match kind {
        InputKind::Zip | InputKind::SevenZip => text_or(parent, "."@),
        InputKind::Directory => input,
        InputKind::Page => "."@,
    }
}

/// The directory into which the files go, where `input` is the path of the input and `parent`
/// that of its directory.
pub fn output_dir(kind: InputKind, input: &str, parent: Option<&str>) -> (r: String)
    ensures
        r@ == files_dir(kind, input@, str_of(parent)),
{
    match kind {
        InputKind::Zip | InputKind::SevenZip => match parent {
            Some(dir) => dir.to_string(),
            None => ".".to_string(),
        },
        InputKind::Directory => input.to_string(),
        InputKind::Page => ".".to_string(),
    }
}

/// The last line of the report.
pub open spec fn summary(total: nat, groups: nat) -> Seq<char> {
    if groups <= 1 {
        "Done. Extracted "@ + decimal(total) + " questions."@
    } else {
        "Done. Extracted "@ + decimal(total) + " questions across "@ + decimal(groups) + " sets."@
    }
}

/// The last line of the report: how many questions there are, and in how many sets if there
/// is more than one.
pub fn summary_line(total: u128, groups: usize) -> (r: String)
    ensures
        r@ == summary(total as nat, groups as nat),
{
    let mut r = "Done. Extracted ".to_string();
    push_decimal(&mut r, total);
    if groups <= 1 {
        r.append(" questions.");
    } else {
        r.append(" questions across ");
        push_decimal(&mut r, groups as u128);
        r.append(" sets.");
    }
    r
}

/// A group is found by its name, and no other name finds anything.
pub proof fn lemma_entries_of(groups: Seq<(Seq<char>, Seq<EntryView>)>, i: int, absent: Seq<char>)
    requires
        names_increase(groups),
        0 <= i < groups.len(),
        forall|j: int| 0 <= j < groups.len() ==> (#[trigger] groups[j]).0 != absent,
    ensures
        entries_of(groups, groups[i].0) == groups[i].1,
        entries_of(groups, absent).len() == 0,
    decreases groups.len(),
{
    let init = groups.drop_last();
    assert(names_increase(init));
    assert(groups[groups.len() - 1].0 != absent);
    if init.len() > 0 {
        assert forall|j: int| 0 <= j < init.len() implies (#[trigger] init[j]).0 != absent by {
            assert(init[j] == groups[j]);
        }
        if i < init.len() {
            assert(groups[i].0 != groups[groups.len() - 1].0);
            lemma_entries_of(init, i, absent);
            assert(init[i] == groups[i]);
        } else {
            lemma_entries_of(init, 0, absent);
        }
    }
}

/// Adding entries adds the name of their group if it is new, and no other; no name is lost.
pub proof fn lemma_extended_names(
    groups: Seq<(Seq<char>, Seq<EntryView>)>,
    name: Seq<char>,
    entries: Seq<EntryView>,
)
    requires
        names_increase(groups),
    ensures
        names_increase(extended(groups, name, entries)),
        group_names(extended(groups, name, entries)) =~= group_names(groups).insert(name),
        extended(groups, name, entries).len() == if group_names(groups).contains(name) {
            groups.len()
        } else {
            groups.len() + 1
        },
    decreases groups.len(),
{
    lemma_extended_increase(groups, name, entries);
    let r = extended(groups, name, entries);
    if groups.len() == 0 || !text_le(name, groups.last().0) {
        lemma_group_names_push(groups, (name, entries));
        if group_names(groups).contains(name) {
            let j = choose|j: int| 0 <= j < groups.len() && (#[trigger] groups[j]).0 == name;
            assert(r[j] == groups[j] && r[groups.len() as int] == (name, entries));
        }
    } else {
        let init = groups.drop_last();
        assert(names_increase(init));
        assert(init.push(groups.last()) =~= groups);
        lemma_group_names_push(init, groups.last());
        if groups.last().0 == name {
            lemma_group_names_push(init, (name, groups.last().1 + entries));
        } else {
            lemma_extended_names(init, name, entries);
            lemma_group_names_push(extended(init, name, entries), groups.last());
        }
    }
}

/// The names of the groups.
pub open spec fn group_names(groups: Seq<(Seq<char>, Seq<EntryView>)>) -> Set<Seq<char>> {
    Set::new(|n: Seq<char>| exists|i: int| 0 <= i < groups.len() && (#[trigger] groups[i]).0 == n)
}

/// One group more has one name more.
proof fn lemma_group_names_push(
    groups: Seq<(Seq<char>, Seq<EntryView>)>,
    g: (Seq<char>, Seq<EntryView>),
)
    ensures
        group_names(groups.push(g)) =~= group_names(groups).insert(g.0),
{
    let all = groups.push(g);
    assert forall|n: Seq<char>| group_names(all).contains(n) <==> group_names(groups).insert(
        g.0,
    ).contains(n) by {
        if group_names(groups).contains(n) {
            let i = choose|i: int| 0 <= i < groups.len() && (#[trigger] groups[i]).0 == n;
            assert(all[i].0 == n);
        }
        if n == g.0 {
            assert(all[groups.len() as int].0 == n);
        }
        if group_names(all).contains(n) {
            let i = choose|i: int| 0 <= i < all.len() && (#[trigger] all[i]).0 == n;
            if i < groups.len() {
                assert(groups[i].0 == n);
            }
        }
    }
}

/// The total counts the entries of every group.
pub proof fn lemma_entry_total(
    groups: Seq<(Seq<char>, Seq<EntryView>)>,
    g: (Seq<char>, Seq<EntryView>),
)
    ensures
        entry_total(Seq::empty()) == 0,
        entry_total(groups.push(g)) == entry_total(groups) + g.1.len(),
{
    assert(groups.push(g).drop_last() =~= groups);
}

/// A group is called by its name made safe as long as that holds a character that is no
/// hexadecimal digit, and else by its number, counted from 1.
pub proof fn lemma_label(group: Seq<char>, index: nat, i: int)
    ensures
        0 <= i < group.len() && !(('0' <= sanitized(group)[i] <= '9') || ('a' <= sanitized(group)[i]
            <= 'f') || ('A' <= sanitized(group)[i] <= 'F')) ==> label(group, index) == sanitized(
            group,
        ),
        (forall|j: int|
            0 <= j < sanitized(group).len() ==> ('0' <= #[trigger] sanitized(group)[j] <= '9') || (
            'a' <= sanitized(group)[j] <= 'f') || ('A' <= sanitized(group)[j] <= 'F')) ==> label(
            group,
            index,
        ) == "set"@ + decimal(index + 1),
{
    let safe = sanitized(group);
    assert(safe.len() == group.len());
    if 0 <= i < group.len() && !(('0' <= safe[i] <= '9') || ('a' <= safe[i] <= 'f') || ('A'
        <= safe[i] <= 'F')) {
        assert(!hex_digit(safe[i]));
    }
}

/// With a single group its file has the wanted name; else the name consists of the wanted stem,
/// the label of the group and the wanted extension, or their defaults.
pub proof fn lemma_file_name(
    output: Seq<char>,
    stem: Seq<char>,
    extension: Seq<char>,
    group: Seq<char>,
    index: nat,
)
    ensures
        file_name(true, output, Some(stem), Some(extension), group, index) == output,
        file_name(true, output, None, None, group, index) == output,
        file_name(false, output, Some(stem), Some(extension), group, index) == stem + "_"@ + label(
            group,
            index,
        ) + "."@ + extension,
        file_name(false, output, None, Some(extension), group, index) == "qa_output"@ + "_"@
            + label(group, index) + "."@ + extension,
        file_name(false, output, Some(stem), None, group, index) == stem + "_"@ + label(
            group,
            index,
        ) + "."@ + "md"@,
{
}

/// Files of groups with different labels have different names.
pub proof fn lemma_file_names_differ(
    output: Seq<char>,
    stem: Option<Seq<char>>,
    extension: Option<Seq<char>>,
    group: Seq<char>,
    index: nat,
    other: Seq<char>,
    other_index: nat,
)
    requires
        label(group, index) != label(other, other_index),
    ensures
        file_name(false, output, stem, extension, group, index) != file_name(
            false,
            output,
            stem,
            extension,
            other,
            other_index,
        ),
{
    let front = text_or(stem, "qa_output"@) + "_"@;
    let back = "."@ + text_or(extension, "md"@);
    let a = file_name(false, output, stem, extension, group, index);
    let b = file_name(false, output, stem, extension, other, other_index);
    assert(a =~= front + label(group, index) + back);
    assert(b =~= front + label(other, other_index) + back);
    let n = front.len() as int;
    assert(a.subrange(n, a.len() - back.len()) =~= label(group, index));
    assert(b.subrange(n, b.len() - back.len()) =~= label(other, other_index));
}

/// The last line of the report names the number of questions, and that of the sets where there
/// are several.
pub proof fn lemma_summary(total: nat, groups: nat)
    ensures
        groups <= 1 ==> summary(total, groups) == "Done. Extracted "@ + decimal(total)
            + " questions."@,
        groups > 1 ==> summary(total, groups) == "Done. Extracted "@ + decimal(total)
            + " questions across "@ + decimal(groups) + " sets."@,
{
}

/// Where the files go.
pub proof fn lemma_files_dir(input: Seq<char>, parent: Seq<char>)
    ensures
        files_dir(InputKind::Zip, input, Some(parent)) == parent,
        files_dir(InputKind::SevenZip, input, Some(parent)) == parent,
        files_dir(InputKind::Zip, input, None) == "."@,
        files_dir(InputKind::SevenZip, input, None) == "."@,
        files_dir(InputKind::Directory, input, Some(parent)) == input,
        files_dir(InputKind::Directory, input, None) == input,
        files_dir(InputKind::Page, input, Some(parent)) == "."@,
        files_dir(InputKind::Page, input, None) == "."@,
{
}

/// A list of groups holds the name and the entries of each, in their order.
pub proof fn lemma_group_views(groups: Seq<(String, Vec<Entry>)>, i: int)
    ensures
        group_views(groups).len() == groups.len(),
        0 <= i < groups.len() ==> group_views(groups)[i] == (
            groups[i].0@,
            entry_views(groups[i].1@),
        ),
{
}

/// Groups in order: of two the one that comes first has the lesser name.
pub proof fn lemma_names_increase(groups: Seq<(Seq<char>, Seq<EntryView>)>, i: int, j: int)
    requires
        names_increase(groups),
        0 <= i < j < groups.len(),
    ensures
        text_le(groups[i].0, groups[j].0),
        groups[i].0 != groups[j].0,
{
}

} // verus!
