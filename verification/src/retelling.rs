//! Questions to retell a story whose text and answer were exported the wrong way round.

use vstd::prelude::*;

use crate::answers::holds_text;
use crate::classify::{looks_like_retelling, retelling};
use crate::entry::{Entry, EntryView};
use crate::text::{byte_len, copy_texts, text_eq, text_len, texts};

verus! {

/// The first place of the greatest length, the place `skip` left out of account; there is
/// none if all the lengths are zero.
pub open spec fn first_longest(lens: Seq<nat>, skip: int) -> Option<int>
    decreases lens.len(),
{
    if lens.len() == 0 {
        None
    } else {
        let i = lens.len() - 1;
        let before = first_longest(lens.drop_last(), skip);
        if i == skip {
            before
        } else {
            match before {
                Some(b) => if lens[i] > lens[b] {
                    Some(i)
                } else {
                    before
                },
                None => if lens[i] > 0 {
                    Some(i)
                } else {
                    None
                },
            }
        }
    }
}

/// The first place of the least length.
pub open spec fn first_shortest(lens: Seq<nat>) -> Option<int>
    decreases lens.len(),
{
    if lens.len() == 0 {
        None
    } else {
        let i = lens.len() - 1;
        let before = first_shortest(lens.drop_last());
        match before {
            Some(b) => if lens[i] < lens[b] {
                Some(i)
            } else {
                before
            },
            None => Some(i),
        }
    }
}

/// The first place of the greatest length but for that of the first longest.
pub open spec fn second_longest(lens: Seq<nat>) -> Option<int> {
    match first_longest(lens, -1) {
        Some(m) => first_longest(lens, m),
        None => None,
    }
}

/// What `first_longest` finds is a place other than `skip`, of a length above zero that no
/// other place exceeds, nor any earlier one reaches.
pub proof fn lemma_first_longest(lens: Seq<nat>, skip: int)
    ensures
        match first_longest(lens, skip) {
            Some(m) => {
                &&& 0 <= m < lens.len()
                &&& m != skip
                &&& lens[m] > 0
                &&& forall|j: int| 0 <= j < lens.len() && j != skip ==> #[trigger] lens[j] <= lens[m]
                &&& forall|j: int| 0 <= j < m && j != skip ==> #[trigger] lens[j] < lens[m]
            },
            None => forall|j: int| 0 <= j < lens.len() && j != skip ==> #[trigger] lens[j] == 0,
        },
    decreases lens.len(),
{
    if lens.len() > 0 {
        let init = lens.drop_last();
        lemma_first_longest(init, skip);
        assert forall|j: int| 0 <= j < init.len() implies #[trigger] lens[j] == init[j] by {}
    }
}

/// What `first_shortest` finds is a place of a length that no other place falls below, nor
/// any earlier one reaches.
pub proof fn lemma_first_shortest(lens: Seq<nat>)
    ensures
        match first_shortest(lens) {
            Some(m) => {
                &&& 0 <= m < lens.len()
                &&& forall|j: int| 0 <= j < lens.len() ==> #[trigger] lens[j] >= lens[m]
                &&& forall|j: int| 0 <= j < m ==> #[trigger] lens[j] > lens[m]
            },
            None => lens.len() == 0,
        },
    decreases lens.len(),
{
    if lens.len() > 0 {
        let init = lens.drop_last();
        lemma_first_shortest(init);
        assert forall|j: int| 0 <= j < init.len() implies #[trigger] lens[j] == init[j] by {}
    }
}

/// A place outside of the sequence need not be left out.
proof fn lemma_skip_outside(lens: Seq<nat>, a: int, b: int)
    requires
        a < 0 || a >= lens.len(),
        b < 0 || b >= lens.len(),
    ensures
        first_longest(lens, a) == first_longest(lens, b),
    decreases lens.len(),
{
    if lens.len() > 0 {
        lemma_skip_outside(lens.drop_last(), a, b);
    }
}

/// The places of the extreme lengths in a list.
pub struct Extremes {
    pub longest: Option<usize>,
    pub second: Option<usize>,
    pub shortest: Option<usize>,
}

/// A place as a number.
pub open spec fn place(p: Option<usize>) -> Option<int> {
    match p {
        Some(i) => Some(i as int),
        None => None,
    }
}

/// The lengths as natural numbers.
pub open spec fn as_nats(lens: Seq<usize>) -> Seq<nat> {
    Seq::new(lens.len(), |i: int| lens[i] as nat)
}

/// The places of the greatest, the second greatest and the least length, in one pass.
pub fn length_extremes(lens: &Vec<usize>) -> (r: Extremes)
    ensures
        place(r.longest) == first_longest(as_nats(lens@), -1),
        place(r.second) == second_longest(as_nats(lens@)),
        place(r.shortest) == first_shortest(as_nats(lens@)),
{
    let ghost all = as_nats(lens@);
    let mut longest: Option<usize> = None;
    let mut second: Option<usize> = None;
    let mut shortest: Option<usize> = None;
    let mut longest_len: usize = 0;
    let mut second_len: usize = 0;
    let mut shortest_len: usize = 0;
    for i in 0..lens.len()
        invariant
            all == as_nats(lens@),
            place(longest) == first_longest(all.take(i as int), -1),
            place(second) == second_longest(all.take(i as int)),
            place(shortest) == first_shortest(all.take(i as int)),
            match longest {
                Some(m) => m < i && longest_len == lens@[m as int],
                None => longest_len == 0,
            },
            match second {
                Some(m) => m < i && second_len == lens@[m as int],
                None => second_len == 0,
            },
            match shortest {
                Some(m) => m < i && shortest_len == lens@[m as int],
                None => true,
            },
    {
        let n: usize = lens[i];
        let ghost upto = all.take(i + 1);
        proof {
            assert(upto.drop_last() =~= all.take(i as int));
            lemma_skip_outside(all.take(i as int), -1, i as int);
            if let Some(m) = longest {
                assert(upto[m as int] == lens@[m as int]);
            }
            if let Some(m) = second {
                assert(upto[m as int] == lens@[m as int]);
            }
            if let Some(m) = shortest {
                assert(upto[m as int] == lens@[m as int]);
            }
        }
        if n > longest_len {
            second_len = longest_len;
            second = longest;
            longest_len = n;
            longest = Some(i);
        } else if n > second_len {
            second_len = n;
            second = Some(i);
        }
        if shortest.is_none() || n < shortest_len {
            shortest_len = n;
            shortest = Some(i);
        }
        assert(first_longest(upto, -1) == place(longest));
        assert(second_longest(upto) == place(second));
    }
    assert(all.take(all.len() as int) =~= all);
    Extremes { longest, second, shortest }
}

/// The longest candidate, of `longest` bytes, is the question and the shortest, of
/// `shortest` bytes, the answer: the one is three times and 200 bytes longer than the other,
/// which exceeds what stands as the question.
pub open spec fn roles_swapped(question: nat, longest: nat, shortest: nat) -> bool {
    longest >= shortest * 3 && longest >= shortest + 200 && question < shortest
}

/// The answers once `question` is the question and `answer` the first answer; `second` joins
/// where there is no other.
pub open spec fn swapped_answers(
    answers: Seq<Seq<char>>,
    question: Seq<char>,
    answer: Seq<char>,
    second: Option<Seq<char>>,
) -> Seq<Seq<char>> {
    let kept = seq![answer] + answers.filter(|a: Seq<char>| a != question && a != answer);
    match second {
        Some(s) => if kept.len() < 2 && !kept.contains(s) {
            kept.push(s)
        } else {
            kept
        },
        None => kept,
    }
}

/// The answers once `question` is the question and `answer` the first answer.
pub fn swap_answers(
    answers: &Vec<String>,
    question: &String,
    answer: &String,
    second: Option<&String>,
) -> (r: Vec<String>)
    ensures
        texts(r@) == swapped_answers(
            texts(answers@),
            question@,
            answer@,
            match second {
                Some(s) => Some(s@),
                None => None,
            },
        ),
{
    let ghost all = texts(answers@);
    let ghost keep = |a: Seq<char>| a != question@ && a != answer@;
    let mut r: Vec<String> = Vec::new();
    r.push(answer.clone());
    assert(texts(r@) =~= seq![answer@] + all.take(0).filter(keep)) by {
        reveal(Seq::filter);
    }
    for i in 0..answers.len()
        invariant
            all == texts(answers@),
            keep == (|a: Seq<char>| a != question@ && a != answer@),
            texts(r@) == seq![answer@] + all.take(i as int).filter(keep),
    {
        let ghost before = r@;
        proof {
            reveal(Seq::filter);
            assert(all.take(i + 1).drop_last() =~= all.take(i as int));
        }
        if !text_eq(answers[i].as_str(), question.as_str()) && !text_eq(
            answers[i].as_str(),
            answer.as_str(),
        ) {
            r.push(answers[i].clone());
            assert(texts(r@) =~= texts(before).push(all[i as int]));
            assert(texts(r@) =~= seq![answer@] + all.take(i as int).filter(keep).push(
                all[i as int],
            ));
        }
    }
    assert(all.take(all.len() as int) =~= all);
    if let Some(s) = second {
        if r.len() < 2 && !holds_text(&r, s) {
            let ghost before = r@;
            r.push(s.clone());
            assert(texts(r@) =~= texts(before).push(s@));
        }
    }
    r
}

/// The candidates for question and answer: the answers, then the question.
pub open spec fn candidates(e: EntryView) -> Seq<Seq<char>> {
    e.answers.push(e.question_text)
}

/// The lengths of texts in bytes.
pub open spec fn lengths(s: Seq<Seq<char>>) -> Seq<nat> {
    Seq::new(s.len(), |i: int| byte_len(s[i]))
}

/// Question and answers of an entry, put right where they are the wrong way round.
pub open spec fn righted(e: EntryView) -> (Seq<char>, Seq<Seq<char>>) {
    let all = candidates(e);
    let lens = lengths(all);
    match (first_longest(lens, -1), first_shortest(lens)) {
        (Some(l), Some(s)) => if retelling(e) && roles_swapped(
            byte_len(e.question_text),
            lens[l],
            lens[s],
        ) {
            (
                all[l],
                swapped_answers(
                    e.answers,
                    all[l],
                    all[s],
                    match second_longest(lens) {
                        Some(t) => Some(all[t]),
                        None => None,
                    },
                ),
            )
        } else {
            (e.question_text, e.answers)
        },
        _ => (e.question_text, e.answers),
    }
}

/// The question is a candidate itself, so that no candidate is shorter than the shortest:
/// question and answers stay what they are.
pub proof fn lemma_righted_unchanged(e: EntryView)
    ensures
        righted(e) == (e.question_text, e.answers),
{
    let lens = lengths(candidates(e));
    lemma_first_shortest(lens);
    assert(lens[lens.len() - 1] == byte_len(e.question_text));
}

/// Question and answers of the entry, put right where they are the wrong way round.
pub fn fix_retelling_swap(e: &Entry) -> (r: (String, Vec<String>))
    ensures
        (r.0@, texts(r.1@)) == righted(e@),
        r.0@ == e.question_text@,
        texts(r.1@) == texts(e.answers@),
{
    proof {
        lemma_righted_unchanged(e@);
    }
    if !looks_like_retelling(e) {
        return (e.question_text.clone(), copy_texts(&e.answers));
    }
    let mut all = copy_texts(&e.answers);
    all.push(e.question_text.clone());
    assert(texts(all@) =~= candidates(e@));
    let mut lens: Vec<usize> = Vec::new();
    for i in 0..all.len()
        invariant
            lens@.len() == i,
            forall|j: int| 0 <= j < i ==> #[trigger] lens@[j] == byte_len(all@[j]@),
    {
        lens.push(text_len(all[i].as_str()));
    }
    assert(as_nats(lens@) =~= lengths(candidates(e@)));
    proof {
        lemma_first_longest(as_nats(lens@), -1);
        lemma_first_shortest(as_nats(lens@));
        if let Some(m) = first_longest(as_nats(lens@), -1) {
            lemma_first_longest(as_nats(lens@), m);
        }
    }
    let found = length_extremes(&lens);
    if let (Some(l), Some(s)) = (found.longest, found.shortest) {
        let question_len: usize = text_len(e.question_text.as_str());
        if lens[l] as u128 >= lens[s] as u128 * 3 && lens[l] as u128 >= lens[s] as u128 + 200
            && question_len < lens[s] {
            let second = match found.second {
                Some(t) => Some(&all[t]),
                None => None,
            };
            let answers = swap_answers(&e.answers, &all[l], &all[s], second);
            return (all[l].clone(), answers);
        }
    }
    (e.question_text.clone(), copy_texts(&e.answers))
}

/// The second longest place is another than the longest, and no third one exceeds it.
pub proof fn lemma_second_longest(lens: Seq<nat>, m: int, k: int)
    requires
        first_longest(lens, -1) == Some(m),
        second_longest(lens) == Some(k),
    ensures
        0 <= k < lens.len(),
        k != m,
        lens[k] <= lens[m],
        forall|j: int| 0 <= j < lens.len() && j != m ==> #[trigger] lens[j] <= lens[k],
{
    lemma_first_longest(lens, -1);
    lemma_first_longest(lens, m);
}

/// Once the roles are swapped, the answer comes first, then the other answers one by one,
/// without the question and the answer; the second longest text joins only where there is no
/// other answer and it is not the answer itself.
pub proof fn lemma_swapped_answers(
    answers: Seq<Seq<char>>,
    next: Seq<char>,
    question: Seq<char>,
    answer: Seq<char>,
    second: Seq<char>,
)
    ensures
        swapped_answers(Seq::empty(), question, answer, None) == seq![answer],
        next == question || next == answer ==> swapped_answers(
            answers.push(next),
            question,
            answer,
            None,
        ) == swapped_answers(answers, question, answer, None),
        next != question && next != answer ==> swapped_answers(
            answers.push(next),
            question,
            answer,
            None,
        ) == swapped_answers(answers, question, answer, None).push(next),
        swapped_answers(answers, question, answer, None).len() > 1 || second == answer
            ==> swapped_answers(answers, question, answer, Some(second)) == swapped_answers(
            answers,
            question,
            answer,
            None,
        ),
        swapped_answers(answers, question, answer, None).len() == 1 && second != answer
            ==> swapped_answers(answers, question, answer, Some(second)) == seq![answer, second],
{
    reveal(Seq::filter);
    let none: Seq<Seq<char>> = Seq::empty();
    assert(swapped_answers(none, question, answer, None) =~= seq![answer]);
    assert(answers.push(next).drop_last() =~= answers);
    let kept = swapped_answers(answers, question, answer, None);
    assert(kept[0] == answer);
    assert(kept.contains(kept[0]));
    if next != question && next != answer {
        assert(swapped_answers(answers.push(next), question, answer, None) =~= kept.push(next));
    }
    if kept.len() == 1 {
        assert(kept =~= seq![answer]);
        assert(kept.push(second) =~= seq![answer, second]);
    }
}

/// The roles are swapped only if the longest text exceeds the shortest both threefold and by
/// 200 bytes, and the question is shorter still.
pub proof fn lemma_roles_swapped(question: nat, longest: nat, shortest: nat)
    ensures
        longest < 3 * shortest ==> !roles_swapped(question, longest, shortest),
        longest < shortest + 200 ==> !roles_swapped(question, longest, shortest),
        question >= shortest ==> !roles_swapped(question, longest, shortest),
        longest >= 3 * shortest && longest >= shortest + 200 && question < shortest
            ==> roles_swapped(question, longest, shortest),
{
}

/// Places and lengths are the numbers that they are.
pub proof fn lemma_places(p: usize, lens: Seq<usize>, i: int)
    ensures
        place(Some(p)) == Some(p as int),
        place(None) is None,
        as_nats(lens).len() == lens.len(),
        0 <= i < lens.len() ==> as_nats(lens)[i] == lens[i],
{
}

} // verus!
