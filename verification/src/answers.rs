//! Choosing among the candidate answers of a question.

use vstd::prelude::*;

use crate::sorting::{
    in_order, inserted, is_order, lemma_sorted_fixed, lemma_sorted_in_order, lemma_sorted_multiset,
    lemma_sorted_stable, level_with, stably_sorted,
};
use crate::text::{byte_len, text_eq, text_len, texts};

verus! {

/// The texts without repetitions: of equal ones the first stays.
pub open spec fn deduped(s: Seq<Seq<char>>) -> Seq<Seq<char>>
    decreases s.len(),
{
    if s.len() == 0 {
        Seq::empty()
    } else {
        let before = deduped(s.drop_last());
        if before.contains(s.last()) {
            before
        } else {
            before.push(s.last())
        }
    }
}

/// The order of texts by the number of their bytes.
pub open spec fn by_length() -> spec_fn(Seq<char>, Seq<char>) -> bool {
    |a: Seq<char>, b: Seq<char>| byte_len(a) <= byte_len(b)
}

/// The `limit` shortest of the distinct texts, shorter ones first, equally long ones in
/// their order.
pub open spec fn selected(s: Seq<Seq<char>>, limit: nat) -> Seq<Seq<char>> {
    let sorted = stably_sorted(deduped(s), by_length());
    if sorted.len() <= limit {
        sorted
    } else {
        sorted.take(limit as int)
    }
}

/// Whether `list` holds the text of `s`.
pub fn holds_text(list: &Vec<String>, s: &String) -> (r: bool)
    ensures
        r == texts(list@).contains(s@),
{
    for i in 0..list.len()
        invariant
            forall|j: int| 0 <= j < i ==> list@[j]@ != s@,
    {
        if text_eq(list[i].as_str(), s.as_str()) {
            assert(texts(list@)[i as int] == s@);
            return true;
        }
    }
    false
}

/// Puts `s` behind the last text that is no longer.
fn insert_by_length(list: &mut Vec<String>, s: String)
    ensures
        texts(final(list)@) == inserted(texts(old(list)@), s@, by_length()),
{
    let ghost all = texts(list@);
    let n: usize = text_len(s.as_str());
    let mut pos: usize = list.len();
    assert(all.take(pos as int) =~= all);
    assert(inserted(all, s@, by_length()) =~= inserted(all.take(pos as int), s@, by_length())
        + all.skip(pos as int));
    while pos > 0 && text_len(list[pos - 1].as_str()) > n
        invariant
            pos <= list.len(),
            all == texts(list@),
            n == byte_len(s@),
            inserted(all, s@, by_length()) == inserted(all.take(pos as int), s@, by_length())
                + all.skip(pos as int),
        decreases pos,
    {
        let ghost before = all.take(pos as int);
        assert(before.last() == all[pos - 1]);
        assert(before.drop_last() =~= all.take(pos - 1));
        assert(inserted(before.drop_last(), s@, by_length()).push(before.last()) + all.skip(
            pos as int,
        ) =~= inserted(all.take(pos - 1), s@, by_length()) + all.skip(pos - 1));
        pos -= 1;
    }
    proof {
        let before = all.take(pos as int);
        if pos > 0 {
            assert(before.last() == all[pos - 1]);
        }
        assert(before.push(s@) + all.skip(pos as int) =~= all.insert(pos as int, s@));
    }
    list.insert(pos, s);
    assert(texts(list@) =~= all.insert(pos as int, s@));
}

/// The `limit` shortest of the distinct answers, shorter ones first, equally long ones in
/// their order. Length is counted in bytes.
pub fn select_shortest_answers(answers: Vec<String>, limit: usize) -> (r: Vec<String>)
    ensures
        texts(r@) == selected(texts(answers@), limit as nat),
{
    let ghost all = texts(answers@);
    let mut uniq: Vec<String> = Vec::new();
    assert(texts(uniq@) =~= deduped(all.take(0)));
    for a in it: answers
        invariant
            it.seq() == answers@,
            all == texts(answers@),
            texts(uniq@) == deduped(all.take(it.index())),
    {
        let ghost before = uniq@;
        assert(all.take(it.index() + 1).drop_last() =~= all.take(it.index()));
        assert(all.take(it.index() + 1).last() == a@);
        if !holds_text(&uniq, &a) {
            uniq.push(a);
            assert(texts(uniq@) =~= texts(before).push(a@));
        }
    }
    assert(all.take(all.len() as int) =~= all);
    let ghost distinct = texts(uniq@);
    let mut r: Vec<String> = Vec::new();
    assert(texts(r@) =~= stably_sorted(distinct.take(0), by_length()));
    for a in it: uniq
        invariant
            it.seq() == uniq@,
            distinct == texts(uniq@),
            texts(r@) == stably_sorted(distinct.take(it.index()), by_length()),
    {
        assert(distinct.take(it.index() + 1).drop_last() =~= distinct.take(it.index()));
        insert_by_length(&mut r, a);
    }
    assert(distinct.take(distinct.len() as int) =~= distinct);
    if r.len() > limit {
        let ghost sorted = texts(r@);
        r.truncate(limit);
        assert(texts(r@) =~= sorted.take(limit as int));
    }
    r
}

/// Removing repetitions leaves every text once.
pub proof fn lemma_deduped(s: Seq<Seq<char>>)
    ensures
        deduped(s).no_duplicates(),
        forall|x: Seq<char>| deduped(s).contains(x) <==> s.contains(x),
    decreases s.len(),
{
    if s.len() > 0 {
        let init = s.drop_last();
        let last = s.last();
        lemma_deduped(init);
        let before = deduped(init);
        assert forall|x: Seq<char>| deduped(s).contains(x) <==> s.contains(x) by {
            if s.contains(x) && x != last {
                let i = choose|i: int| 0 <= i < s.len() && s[i] == x;
                assert(init[i] == x);
            }
            if init.contains(x) {
                let i = choose|i: int| 0 <= i < init.len() && init[i] == x;
                assert(s[i] == x);
            }
            assert(s[s.len() - 1] == last);
            if before.contains(last) {
            } else {
                assert(before.push(last)[before.len() as int] == last);
                if before.contains(x) {
                    let i = choose|i: int| 0 <= i < before.len() && before[i] == x;
                    assert(before.push(last)[i] == x);
                }
            }
        }
    }
}

/// Texts without repetitions are left as they are.
proof fn lemma_deduped_fixed(s: Seq<Seq<char>>)
    requires
        s.no_duplicates(),
    ensures
        deduped(s) == s,
    decreases s.len(),
{
    if s.len() > 0 {
        let init = s.drop_last();
        lemma_deduped_fixed(init);
        assert(!init.contains(s.last()));
        assert(init.push(s.last()) =~= s);
    } else {
        assert(deduped(s) =~= s);
    }
}

/// What selecting promises: the answers come from those given, none twice, shorter ones
/// first, no more than `limit` and no fewer than there are or `limit`; an answer that is
/// left out is no shorter than one that is kept.
pub proof fn lemma_selected(s: Seq<Seq<char>>, limit: nat)
    ensures
        selected(s, limit).len() == if deduped(s).len() <= limit {
            deduped(s).len()
        } else {
            limit
        },
        selected(s, limit).no_duplicates(),
        in_order(selected(s, limit), by_length()),
        forall|x: Seq<char>| #[trigger] selected(s, limit).contains(x) ==> s.contains(x),
        forall|x: Seq<char>, y: Seq<char>|
            s.contains(x) && !#[trigger] selected(s, limit).contains(x)
                && #[trigger] selected(s, limit).contains(y) ==> byte_len(y) <= byte_len(x),
        forall|x: Seq<char>|
            deduped(s).len() <= limit && s.contains(x) ==> #[trigger] selected(s, limit).contains(
                x,
            ),
{
    broadcast use vstd::seq_lib::group_to_multiset_ensures;

    let le = by_length();
    let distinct = deduped(s);
    let sorted = stably_sorted(distinct, le);
    let r = selected(s, limit);
    lemma_deduped(s);
    assert(is_order(le));
    lemma_sorted_in_order(distinct, le);
    lemma_sorted_multiset(distinct, le);
    distinct.lemma_multiset_has_no_duplicates();
    sorted.lemma_multiset_has_no_duplicates_conv();
    assert forall|x: Seq<char>| sorted.contains(x) <==> s.contains(x) by {
        assert(sorted.contains(x) <==> sorted.to_multiset().contains(x));
        assert(distinct.contains(x) <==> distinct.to_multiset().contains(x));
    }
    assert forall|x: Seq<char>| #[trigger] r.contains(x) implies s.contains(x) by {
        let i = choose|i: int| 0 <= i < r.len() && r[i] == x;
        assert(sorted[i] == x);
        assert(sorted.contains(x));
    }
    assert forall|x: Seq<char>, y: Seq<char>|
        s.contains(x) && !#[trigger] r.contains(x) && #[trigger] r.contains(y) implies byte_len(y)
        <= byte_len(x) by {
        assert(sorted.contains(x));
        let i = choose|i: int| 0 <= i < sorted.len() && sorted[i] == x;
        let j = choose|j: int| 0 <= j < r.len() && r[j] == y;
        assert(sorted[j] == y);
        if i < r.len() {
            assert(r[i] == x);
        }
        assert(le(sorted[j], sorted[i]));
    }
}

/// Selecting again from what was selected changes nothing.
pub proof fn lemma_selected_again(s: Seq<Seq<char>>, limit: nat)
    ensures
        selected(selected(s, limit), limit) == selected(s, limit),
{
    let r = selected(s, limit);
    lemma_selected(s, limit);
    lemma_deduped_fixed(r);
    lemma_sorted_fixed(r, by_length());
}

/// One text by one: a text that was there before is left out, any other goes to the end.
pub proof fn lemma_deduped_push(s: Seq<Seq<char>>, x: Seq<char>)
    ensures
        deduped(Seq::empty()).len() == 0,
        s.contains(x) ==> deduped(s.push(x)) == deduped(s),
        !s.contains(x) ==> deduped(s.push(x)) == deduped(s).push(x),
{
    lemma_deduped(s);
    assert(s.push(x).drop_last() =~= s);
}

/// Selected answers of the same length come in the order in which they came first.
pub proof fn lemma_selected_stable(s: Seq<Seq<char>>, limit: nat, n: nat)
    requires
        deduped(s).len() <= limit,
    ensures
        selected(s, limit).filter(|x: Seq<char>| byte_len(x) == n) == deduped(s).filter(
            |x: Seq<char>| byte_len(x) == n,
        ),
{
    let le = by_length();
    let distinct = deduped(s);
    let keep = |x: Seq<char>| byte_len(x) == n;
    lemma_sorted_multiset(distinct, le);
    assert(is_order(le));
    if exists|z: Seq<char>| byte_len(z) == n {
        let z = choose|z: Seq<char>| byte_len(z) == n;
        lemma_sorted_stable(distinct, le, z);
        assert(level_with(z, le) =~= keep);
    } else {
        lemma_none_kept(distinct, keep);
        lemma_none_kept(selected(s, limit), keep);
    }
}

/// Of elements none of which is to be kept nothing is kept.
proof fn lemma_none_kept(s: Seq<Seq<char>>, keep: spec_fn(Seq<char>) -> bool)
    requires
        forall|x: Seq<char>| !#[trigger] keep(x),
    ensures
        s.filter(keep) == Seq::<Seq<char>>::empty(),
    decreases s.len(),
{
    reveal(Seq::filter);
    if s.len() > 0 {
        lemma_none_kept(s.drop_last(), keep);
    }
}

/// With a smaller limit the first of the selected answers are selected.
pub proof fn lemma_selected_fewer(s: Seq<Seq<char>>, limit: nat, more: nat)
    requires
        limit <= more,
    ensures
        selected(s, limit) == if selected(s, more).len() <= limit {
            selected(s, more)
        } else {
            selected(s, more).take(limit as int)
        },
{
    assert(selected(s, limit) =~= if selected(s, more).len() <= limit {
        selected(s, more)
    } else {
        selected(s, more).take(limit as int)
    });
}

/// Selected answers come shorter ones first.
pub proof fn lemma_selected_order(s: Seq<Seq<char>>, limit: nat, i: int, j: int)
    requires
        0 <= i < j < selected(s, limit).len(),
    ensures
        byte_len(selected(s, limit)[i]) <= byte_len(selected(s, limit)[j]),
        selected(s, limit)[i] != selected(s, limit)[j],
{
    lemma_selected(s, limit);
}

} // verus!
