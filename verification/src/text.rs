//! Text primitives: comparing, searching, trimming and joining strings, stated over
//! their sequences of characters.

use vstd::prelude::*;
use vstd::utf8::encode_utf8;

verus! {

/// `String::push` appends one character to the end of the string.
pub assume_specification[ String::push ](s: &mut String, c: char)
    ensures
        final(s)@ == old(s)@.push(c),
;

/// The number of bytes in the UTF-8 encoding of a text.
pub open spec fn byte_len(s: Seq<char>) -> nat {
    encode_utf8(s).len()
}

/// The texts that a list of strings holds.
pub open spec fn texts(v: Seq<String>) -> Seq<Seq<char>> {
    Seq::new(v.len(), |i: int| v[i]@)
}

/// A list of strings with the same texts.
pub fn copy_texts(v: &Vec<String>) -> (r: Vec<String>)
    ensures
        texts(r@) == texts(v@),
{
    let mut r: Vec<String> = Vec::new();
    for i in 0..v.len()
        invariant
            texts(r@) == texts(v@).take(i as int),
    {
        let ghost before = r@;
        r.push(v[i].clone());
        assert(texts(r@) =~= texts(before).push(v@[i as int]@));
    }
    assert(texts(v@).take(v@.len() as int) =~= texts(v@));
    r
}

/// The number of bytes in the UTF-8 encoding of `s`.
pub fn text_len(s: &str) -> (n: usize)
    ensures
        n == byte_len(s@),
{
    s.as_bytes().len()
}

/// The characters of `s`, in order.
pub fn chars_of(s: &str) -> (out: Vec<char>)
    ensures
        out@ == s@,
{
    let mut out: Vec<char> = Vec::new();
    for c in it: s.chars()
        invariant
            it.seq() == s@,
            out@ == it.seq().take(it.index()),
    {
        out.push(c);
    }
    out
}

/// Whether two texts hold the same characters.
#[verifier::loop_isolation(false)]
pub fn text_eq(a: &str, b: &str) -> (r: bool)
    ensures
        r == (a@ == b@),
{
    let x = chars_of(a);
    let y = chars_of(b);
    if x.len() != y.len() {
        return false;
    }
    for i in 0..x.len()
        invariant
            forall|j: int| 0 <= j < i ==> x@[j] == y@[j],
    {
        if x[i] != y[i] {
            return false;
        }
    }
    assert(x@ =~= y@);
    true
}

/// `part` occurs in `whole` at position `i`.
pub open spec fn occurs_at(whole: Seq<char>, part: Seq<char>, i: int) -> bool {
    &&& 0 <= i
    &&& i + part.len() <= whole.len()
    &&& whole.subrange(i, i + part.len()) == part
}

/// `part` occurs somewhere in `whole`.
pub open spec fn has_part(whole: Seq<char>, part: Seq<char>) -> bool {
    exists|i: int| occurs_at(whole, part, i)
}

/// Whether `part` occurs in `whole` at position `i`.
#[verifier::loop_isolation(false)]
fn found_at(whole: &Vec<char>, part: &Vec<char>, i: usize) -> (r: bool)
    requires
        i + part.len() <= whole.len(),
    ensures
        r == occurs_at(whole@, part@, i as int),
{
    for j in 0..part.len()
        invariant
            forall|k: int| 0 <= k < j ==> whole@[i + k] == part@[k],
    {
        if whole[i + j] != part[j] {
            assert(whole@.subrange(i as int, i + part.len())[j as int] == whole@[i + j]);
            return false;
        }
    }
    assert(whole@.subrange(i as int, i + part.len()) =~= part@);
    true
}

/// Whether `part` occurs somewhere in `whole`.
#[verifier::loop_isolation(false)]
pub fn contains_text(whole: &str, part: &str) -> (r: bool)
    ensures
        r == has_part(whole@, part@),
{
    let w = chars_of(whole);
    let p = chars_of(part);
    if p.len() > w.len() {
        return false;
    }
    let last: usize = w.len() - p.len();
    let mut i: usize = 0;
    while i <= last
        invariant
            i <= last + 1,
            forall|k: int| 0 <= k < i ==> !occurs_at(w@, p@, k),
        decreases last + 1 - i,
    {
        if found_at(&w, &p, i) {
            return true;
        }
        if i == last {
            return false;
        }
        i += 1;
    }
    false
}

/// The first place of `c`.
pub open spec fn first_place(s: Seq<char>, c: char) -> Option<int>
    decreases s.len(),
{
    if s.len() == 0 {
        None
    } else {
        match first_place(s.drop_last(), c) {
            Some(i) => Some(i),
            None => if s.last() == c {
                Some(s.len() - 1)
            } else {
                None
            },
        }
    }
}

/// The last place of `c`.
pub open spec fn last_place(s: Seq<char>, c: char) -> Option<int>
    decreases s.len(),
{
    if s.len() == 0 {
        None
    } else if s.last() == c {
        Some(s.len() - 1)
    } else {
        last_place(s.drop_last(), c)
    }
}

/// A common Chinese character.
pub open spec fn chinese(c: char) -> bool {
    '\u{4e00}' <= c <= '\u{9fff}'
}

/// The characters with the Unicode property White_Space.
pub open spec fn white_space(c: char) -> bool {
    ||| '\u{9}' <= c <= '\u{d}'
    ||| c == ' '
    ||| c == '\u{85}'
    ||| c == '\u{a0}'
    ||| c == '\u{1680}'
    ||| '\u{2000}' <= c <= '\u{200a}'
    ||| c == '\u{2028}'
    ||| c == '\u{2029}'
    ||| c == '\u{202f}'
    ||| c == '\u{205f}'
    ||| c == '\u{3000}'
}

/// Whether `c` has the Unicode property White_Space.
pub fn is_white_space(c: char) -> (r: bool)
    ensures
        r == white_space(c),
{
    ('\u{9}' <= c && c <= '\u{d}') || c == ' ' || c == '\u{85}' || c == '\u{a0}' || c == '\u{1680}'
        || ('\u{2000}' <= c && c <= '\u{200a}') || c == '\u{2028}' || c == '\u{2029}'
        || c == '\u{202f}' || c == '\u{205f}' || c == '\u{3000}'
}

/// `s` without its leading white space.
pub open spec fn trim_start(s: Seq<char>) -> Seq<char>
    decreases s.len(),
{
    if s.len() > 0 && white_space(s[0]) {
        trim_start(s.skip(1))
    } else {
        s
    }
}

/// `s` without its trailing white space.
pub open spec fn trim_end(s: Seq<char>) -> Seq<char>
    decreases s.len(),
{
    if s.len() > 0 && white_space(s.last()) {
        trim_end(s.drop_last())
    } else {
        s
    }
}

/// `s` without its leading and trailing white space.
pub open spec fn trimmed(s: Seq<char>) -> Seq<char> {
    trim_end(trim_start(s))
}

/// The characters `from..to` of `v` as a string.
#[verifier::loop_isolation(false)]
pub fn substring(v: &Vec<char>, from: usize, to: usize) -> (r: String)
    requires
        from <= to <= v.len(),
    ensures
        r@ == v@.subrange(from as int, to as int),
{
    let mut r = String::new();
    for i in from..to
        invariant
            r@ =~= v@.subrange(from as int, i as int),
    {
        r.push(v[i]);
    }
    r
}

/// The bounds of what is left of `v` once leading and trailing white space is gone.
#[verifier::loop_isolation(false)]
fn trim_bounds(v: &Vec<char>) -> (r: (usize, usize))
    ensures
        r.0 <= r.1 <= v.len(),
        v@.subrange(r.0 as int, r.1 as int) == trimmed(v@),
{
    let mut a: usize = 0;
    assert(v@.skip(0) =~= v@);
    while a < v.len() && is_white_space(v[a])
        invariant
            a <= v.len(),
            trim_start(v@) == trim_start(v@.skip(a as int)),
        decreases v.len() - a,
    {
        assert(v@.skip(a as int)[0] == v@[a as int]);
        assert(v@.skip(a as int).skip(1) =~= v@.skip(a + 1));
        a += 1;
    }
    assert(trim_start(v@) == v@.skip(a as int));
    let mut b: usize = v.len();
    assert(v@.subrange(a as int, b as int) =~= v@.skip(a as int));
    while b > a && is_white_space(v[b - 1])
        invariant
            a <= b <= v.len(),
            trim_end(trim_start(v@)) == trim_end(v@.subrange(a as int, b as int)),
        decreases b,
    {
        assert(v@.subrange(a as int, b as int).last() == v@[b - 1]);
        assert(v@.subrange(a as int, b as int).drop_last() =~= v@.subrange(a as int, b - 1));
        b -= 1;
    }
    (a, b)
}

/// `s` without its leading and trailing white space.
pub fn trim(s: &str) -> (r: String)
    ensures
        r@ == trimmed(s@),
{
    let v = chars_of(s);
    let (a, b) = trim_bounds(&v);
    substring(&v, a, b)
}

/// The text between the line feeds of `s`; one line more than there are line feeds.
pub open spec fn split_lines(s: Seq<char>) -> Seq<Seq<char>>
    decreases s.len(),
{
    if s.len() == 0 {
        seq![Seq::empty()]
    } else {
        let before = split_lines(s.drop_last());
        if s.last() == '\n' {
            before.push(Seq::empty())
        } else {
            before.drop_last().push(before.last().push(s.last()))
        }
    }
}

/// Every line trimmed, the lines that are then empty left out.
pub open spec fn kept_lines(lines: Seq<Seq<char>>) -> Seq<Seq<char>>
    decreases lines.len(),
{
    if lines.len() == 0 {
        Seq::empty()
    } else {
        let before = kept_lines(lines.drop_last());
        let line = trimmed(lines.last());
        if line.len() == 0 {
            before
        } else {
            before.push(line)
        }
    }
}

/// The parts in order, with `sep` between neighbours.
pub open spec fn joined(parts: Seq<Seq<char>>, sep: Seq<char>) -> Seq<char>
    decreases parts.len(),
{
    if parts.len() == 0 {
        Seq::empty()
    } else if parts.len() == 1 {
        parts[0]
    } else {
        joined(parts.drop_last(), sep) + sep + parts.last()
    }
}

/// The lines of `s`, trimmed, without the empty ones, one below the other.
pub open spec fn tidied(s: Seq<char>) -> Seq<char> {
    joined(kept_lines(split_lines(s)), seq!['\n'])
}

/// Appends the line `cur` to `out`, trimmed, unless nothing is left of it.
fn push_line(out: &mut String, any: bool, cur: &Vec<char>, Ghost(done): Ghost<Seq<Seq<char>>>) -> (r: bool)
    requires
        old(out)@ == joined(kept_lines(done), seq!['\n']),
        any == (kept_lines(done).len() > 0),
    ensures
        final(out)@ == joined(kept_lines(done.push(cur@)), seq!['\n']),
        r == (kept_lines(done.push(cur@)).len() > 0),
{
    let (a, b) = trim_bounds(cur);
    proof {
        assert(done.push(cur@).drop_last() =~= done);
        assert(kept_lines(done).push(trimmed(cur@)).drop_last() =~= kept_lines(done));
    }
    if a == b {
        return any;
    }
    let line = substring(cur, a, b);
    if any {
        out.push('\n');
    }
    out.append(line.as_str());
    assert(out@ =~= joined(kept_lines(done.push(cur@)), seq!['\n']));
    true
}

/// The lines of `s`, trimmed, without the empty ones, one below the other.
#[verifier::loop_isolation(false)]
pub fn tidy_lines(s: &str) -> (r: String)
    ensures
        r@ == tidied(s@),
{
    let v = chars_of(s);
    let mut out = String::new();
    let mut any: bool = false;
    let mut cur: Vec<char> = Vec::new();
    let ghost mut done: Seq<Seq<char>> = Seq::empty();
    assert(v@.take(0) =~= Seq::empty());
    assert(split_lines(v@.take(0)) =~= done.push(cur@));
    for i in 0..v.len()
        invariant
            split_lines(v@.take(i as int)) == done.push(cur@),
            out@ == joined(kept_lines(done), seq!['\n']),
            any == (kept_lines(done).len() > 0),
    {
        assert(v@.take(i + 1).drop_last() =~= v@.take(i as int));
        assert(done.push(cur@).drop_last() =~= done);
        if v[i] == '\n' {
            any = push_line(&mut out, any, &cur, Ghost(done));
            proof {
                done = done.push(cur@);
            }
            cur = Vec::new();
            assert(split_lines(v@.take(i + 1)) =~= done.push(cur@));
        } else {
            cur.push(v[i]);
            assert(split_lines(v@.take(i + 1)) =~= done.push(cur@));
        }
    }
    assert(v@.take(v@.len() as int) =~= v@);
    let _ = push_line(&mut out, any, &cur, Ghost(done));
    out
}

/// The decimal digit of `d`.
pub open spec fn digit(d: nat) -> char {
    (48 + d) as char
}

/// The decimal notation of `n`.
pub open spec fn decimal(n: nat) -> Seq<char>
    decreases n,
{
    if n < 10 {
        seq![digit(n)]
    } else {
        decimal(n / 10).push(digit(n % 10))
    }
}

/// Appends the decimal notation of `n` to `out`.
pub fn push_decimal(out: &mut String, n: u128)
    ensures
        final(out)@ == old(out)@ + decimal(n as nat),
    decreases n,
{
    let ghost before = out@;
    if n >= 10 {
        push_decimal(out, n / 10);
    }
    let d: u8 = (n % 10) as u8;
    out.push((48u8 + d) as char);
    assert(out@ =~= before + decimal(n as nat));
}

/// `a` comes no later than `b` in the lexicographic order of bytes.
pub open spec fn bytes_le(a: Seq<u8>, b: Seq<u8>) -> bool
    decreases a.len(),
{
    if a.len() == 0 {
        true
    } else if b.len() == 0 {
        false
    } else if a[0] != b[0] {
        a[0] < b[0]
    } else {
        bytes_le(a.skip(1), b.skip(1))
    }
}

/// `a` comes no later than `b` in the order of strings: by the bytes of their UTF-8 encoding.
pub open spec fn text_le(a: Seq<char>, b: Seq<char>) -> bool {
    bytes_le(encode_utf8(a), encode_utf8(b))
}

/// Whether `a` comes no later than `b` in the order of strings.
#[verifier::loop_isolation(false)]
pub fn is_text_le(a: &str, b: &str) -> (r: bool)
    ensures
        r == text_le(a@, b@),
{
    let x = a.as_bytes();
    let y = b.as_bytes();
    let mut i: usize = 0;
    assert(x@.skip(0) =~= x@);
    assert(y@.skip(0) =~= y@);
    while i < x.len()
        invariant
            i <= x.len(),
            i <= y.len(),
            text_le(a@, b@) == bytes_le(x@.skip(i as int), y@.skip(i as int)),
        decreases x.len() - i,
    {
        if i >= y.len() {
            return false;
        }
        assert(x@.skip(i as int)[0] == x@[i as int]);
        assert(y@.skip(i as int)[0] == y@[i as int]);
        if x[i] != y[i] {
            return x[i] < y[i];
        }
        assert(x@.skip(i as int).skip(1) =~= x@.skip(i + 1));
        assert(y@.skip(i as int).skip(1) =~= y@.skip(i + 1));
        i += 1;
    }
    true
}

/// The order of byte sequences is total.
proof fn lemma_bytes_le_total(a: Seq<u8>, b: Seq<u8>)
    ensures
        bytes_le(a, b) || bytes_le(b, a),
    decreases a.len(),
{
    if a.len() > 0 && b.len() > 0 && a[0] == b[0] {
        lemma_bytes_le_total(a.skip(1), b.skip(1));
    }
}

/// Two byte sequences that come no later than each other are equal.
proof fn lemma_bytes_le_antisymmetric(a: Seq<u8>, b: Seq<u8>)
    requires
        bytes_le(a, b),
        bytes_le(b, a),
    ensures
        a == b,
    decreases a.len(),
{
    if a.len() > 0 && b.len() > 0 {
        lemma_bytes_le_antisymmetric(a.skip(1), b.skip(1));
        assert(a =~= seq![a[0]] + a.skip(1));
        assert(b =~= seq![b[0]] + b.skip(1));
    } else {
        assert(a =~= b);
    }
}

/// The order of byte sequences is transitive.
proof fn lemma_bytes_le_transitive(a: Seq<u8>, b: Seq<u8>, c: Seq<u8>)
    requires
        bytes_le(a, b),
        bytes_le(b, c),
    ensures
        bytes_le(a, c),
    decreases a.len(),
{
    if a.len() > 0 && b.len() > 0 && c.len() > 0 && a[0] == b[0] && b[0] == c[0] {
        lemma_bytes_le_transitive(a.skip(1), b.skip(1), c.skip(1));
    }
}

/// Of two texts one comes no later than the other.
pub proof fn lemma_text_le_total(a: Seq<char>, b: Seq<char>)
    ensures
        text_le(a, b) || text_le(b, a),
{
    lemma_bytes_le_total(encode_utf8(a), encode_utf8(b));
}

/// Two texts that come no later than each other are the same text.
pub proof fn lemma_text_le_antisymmetric(a: Seq<char>, b: Seq<char>)
    requires
        text_le(a, b),
        text_le(b, a),
    ensures
        a == b,
{
    lemma_bytes_le_antisymmetric(encode_utf8(a), encode_utf8(b));
    vstd::utf8::encode_utf8_decode_utf8(a);
    vstd::utf8::encode_utf8_decode_utf8(b);
}

/// The order of texts is transitive.
pub proof fn lemma_text_le_transitive(a: Seq<char>, b: Seq<char>, c: Seq<char>)
    requires
        text_le(a, b),
        text_le(b, c),
    ensures
        text_le(a, c),
{
    lemma_bytes_le_transitive(encode_utf8(a), encode_utf8(b), encode_utf8(c));
}

/// The strings in order, with `sep` between neighbours.
pub fn join_texts(parts: &Vec<String>, sep: &str) -> (r: String)
    ensures
        r@ == joined(texts(parts@), sep@),
{
    let ghost all = texts(parts@);
    let mut r = String::new();
    for i in 0..parts.len()
        invariant
            all == texts(parts@),
            r@ == joined(all.take(i as int), sep@),
    {
        let ghost before = r@;
        if i > 0 {
            r.append(sep);
        }
        r.append(parts[i].as_str());
        assert(all.take(i + 1).drop_last() =~= all.take(i as int));
        assert(r@ =~= joined(all.take(i + 1), sep@));
    }
    assert(all.take(all.len() as int) =~= all);
    r
}

/// The value of a decimal notation.
pub open spec fn decimal_value(s: Seq<char>) -> int
    decreases s.len(),
{
    if s.len() == 0 {
        0
    } else {
        decimal_value(s.drop_last()) * 10 + (s.last() as int - 48)
    }
}

/// The decimal notation of a number has the number's value.
proof fn lemma_decimal_value(n: nat)
    ensures
        decimal_value(decimal(n)) == n,
    decreases n,
{
    if n < 10 {
        let none: Seq<char> = Seq::empty();
        assert(decimal(n).drop_last() =~= none);
        assert(decimal_value(none) == 0);
        assert(digit(n) as int == 48 + n);
    } else {
        lemma_decimal_value(n / 10);
        assert(decimal(n).drop_last() =~= decimal(n / 10));
        assert(digit(n % 10) as int == 48 + n % 10);
    }
}

/// Different numbers have different decimal notations.
pub proof fn lemma_decimal_injective(a: nat, b: nat)
    requires
        decimal(a) == decimal(b),
    ensures
        a == b,
{
    lemma_decimal_value(a);
    lemma_decimal_value(b);
}

/// White space at neither end.
pub open spec fn is_trimmed(s: Seq<char>) -> bool {
    s.len() > 0 ==> !white_space(s[0]) && !white_space(s.last())
}

/// What is left behind leading white space is the end of the text, and all that comes before
/// it is white space.
pub proof fn lemma_trim_start(s: Seq<char>)
    ensures
        trim_start(s).len() <= s.len(),
        trim_start(s) == s.skip(s.len() - trim_start(s).len()),
        forall|k: int| 0 <= k < s.len() - trim_start(s).len() ==> white_space(#[trigger] s[k]),
        trim_start(s).len() > 0 ==> !white_space(trim_start(s)[0]),
    decreases s.len(),
{
    if s.len() > 0 && white_space(s[0]) {
        let rest = s.skip(1);
        lemma_trim_start(rest);
        assert(rest.skip(rest.len() - trim_start(rest).len()) =~= s.skip(
            s.len() - trim_start(s).len(),
        ));
        assert forall|k: int| 0 <= k < s.len() - trim_start(s).len() implies white_space(
            #[trigger] s[k],
        ) by {
            if k > 0 {
                assert(rest[k - 1] == s[k]);
            }
        }
    } else {
        assert(s.skip(0) =~= s);
    }
}

/// What is left before trailing white space is the beginning of the text.
proof fn lemma_trim_end(s: Seq<char>)
    ensures
        trim_end(s).len() <= s.len(),
        trim_end(s) == s.take(trim_end(s).len() as int),
        trim_end(s).len() > 0 ==> !white_space(trim_end(s).last()),
    decreases s.len(),
{
    if s.len() > 0 && white_space(s.last()) {
        lemma_trim_end(s.drop_last());
        assert(s.drop_last().take(trim_end(s).len() as int) =~= s.take(trim_end(s).len() as int));
    } else {
        assert(s.take(s.len() as int) =~= s);
    }
}

/// A trimmed text has no white space at its ends, and it is a part of the text.
pub proof fn lemma_trimmed(s: Seq<char>)
    ensures
        is_trimmed(trimmed(s)),
        forall|c: char| trimmed(s).contains(c) ==> s.contains(c),
{
    let t = trim_start(s);
    lemma_trim_start(s);
    lemma_trim_end(t);
    let r = trimmed(s);
    if r.len() > 0 {
        assert(r[0] == t[0]);
    }
    assert forall|c: char| r.contains(c) implies s.contains(c) by {
        let i = choose|i: int| 0 <= i < r.len() && r[i] == c;
        assert(t[i] == c);
        assert(s[s.len() - t.len() + i] == c);
    }
}

/// A text without white space at its ends is left as it is.
pub proof fn lemma_trimmed_fixed(s: Seq<char>)
    requires
        is_trimmed(s),
    ensures
        trimmed(s) == s,
{
}

/// The lines of a text hold no line feed.
proof fn lemma_split_lines(s: Seq<char>)
    ensures
        split_lines(s).len() > 0,
        forall|i: int| 0 <= i < split_lines(s).len() ==> !(#[trigger] split_lines(s)[i]).contains('\n'),
    decreases s.len(),
{
    if s.len() > 0 {
        lemma_split_lines(s.drop_last());
        let before = split_lines(s.drop_last());
        assert forall|i: int| 0 <= i < split_lines(s).len() implies !(#[trigger] split_lines(
            s,
        )[i]).contains('\n') by {
            if s.last() != '\n' && i == before.len() - 1 {
                let line = before.last().push(s.last());
                if line.contains('\n') {
                    let j = choose|j: int| 0 <= j < line.len() && line[j] == '\n';
                    assert(before.last()[j] == '\n');
                    assert(before[before.len() - 1].contains('\n'));
                }
            } else if i < before.len() {
                assert(split_lines(s)[i] == before[i]);
            }
        }
    }
}

/// Lines without a line feed in them, white space at their ends, or nothing in them at all.
pub open spec fn tidy(lines: Seq<Seq<char>>) -> bool {
    forall|i: int|
        0 <= i < lines.len() ==> is_trimmed(#[trigger] lines[i]) && lines[i].len() > 0
            && !lines[i].contains('\n')
}

/// The kept lines are tidy.
proof fn lemma_kept_lines(lines: Seq<Seq<char>>)
    requires
        forall|i: int| 0 <= i < lines.len() ==> !(#[trigger] lines[i]).contains('\n'),
    ensures
        tidy(kept_lines(lines)),
    decreases lines.len(),
{
    if lines.len() > 0 {
        let init = lines.drop_last();
        assert forall|i: int| 0 <= i < init.len() implies !(#[trigger] init[i]).contains('\n') by {
            assert(init[i] == lines[i]);
        }
        lemma_kept_lines(init);
        lemma_trimmed(lines.last());
        assert(!lines[lines.len() - 1].contains('\n'));
    }
}

/// Tidy lines are kept as they are.
proof fn lemma_kept_lines_fixed(lines: Seq<Seq<char>>)
    requires
        tidy(lines),
    ensures
        kept_lines(lines) == lines,
    decreases lines.len(),
{
    if lines.len() > 0 {
        let init = lines.drop_last();
        assert(tidy(init)) by {
            assert forall|i: int| 0 <= i < init.len() implies is_trimmed(#[trigger] init[i])
                && init[i].len() > 0 && !init[i].contains('\n') by {
                assert(init[i] == lines[i]);
            }
        }
        lemma_kept_lines_fixed(init);
        assert(is_trimmed(lines[lines.len() - 1]));
        lemma_trimmed_fixed(lines.last());
        assert(init.push(lines.last()) =~= lines);
    } else {
        assert(kept_lines(lines) =~= lines);
    }
}

/// A text without a line feed behind another goes on with its last line.
proof fn lemma_split_append(s: Seq<char>, t: Seq<char>)
    requires
        !t.contains('\n'),
    ensures
        split_lines(s + t) == split_lines(s).drop_last().push(split_lines(s).last() + t),
    decreases t.len(),
{
    lemma_split_lines(s);
    if t.len() == 0 {
        assert(s + t =~= s);
        assert(split_lines(s).last() + t =~= split_lines(s).last());
        assert(split_lines(s) =~= split_lines(s).drop_last().push(split_lines(s).last()));
    } else {
        let init = t.drop_last();
        assert((s + t).drop_last() =~= s + init);
        assert(!init.contains('\n')) by {
            if init.contains('\n') {
                let i = choose|i: int| 0 <= i < init.len() && init[i] == '\n';
                assert(t[i] == '\n');
            }
        }
        lemma_split_append(s, init);
        assert(t[t.len() - 1] != '\n');
        let before = split_lines(s + init);
        assert(before.drop_last() =~= split_lines(s).drop_last());
        assert(before.last() =~= split_lines(s).last() + init);
        assert((split_lines(s).last() + init).push(t.last()) =~= split_lines(s).last() + t);
    }
}

/// Joined lines are split again into the same lines.
proof fn lemma_split_joined(lines: Seq<Seq<char>>)
    requires
        lines.len() > 0,
        tidy(lines),
    ensures
        split_lines(joined(lines, seq!['\n'])) == lines,
    decreases lines.len(),
{
    let last = lines[lines.len() - 1];
    assert(!last.contains('\n'));
    if lines.len() == 1 {
        let none: Seq<char> = Seq::empty();
        lemma_split_append(none, last);
        assert(none + last =~= last);
        assert(split_lines(none) =~= seq![none]);
        assert(split_lines(last) =~= lines);
    } else {
        let init = lines.drop_last();
        assert(tidy(init)) by {
            assert forall|i: int| 0 <= i < init.len() implies is_trimmed(#[trigger] init[i])
                && init[i].len() > 0 && !init[i].contains('\n') by {
                assert(init[i] == lines[i]);
            }
        }
        lemma_split_joined(init);
        let before = joined(init, seq!['\n']);
        let ended = before.push('\n');
        assert(ended.drop_last() =~= before);
        let none: Seq<char> = Seq::empty();
        assert(split_lines(ended) == init.push(none));
        lemma_split_append(ended, last);
        assert(ended + last =~= joined(lines, seq!['\n']));
        assert(none + last =~= last);
        assert(init.push(none).drop_last() =~= init);
        assert(init.push(last) =~= lines);
    }
}

/// A tidied text consists of tidy lines: none is empty, none begins or ends with white space.
pub proof fn lemma_tidied(s: Seq<char>)
    ensures
        tidied(s).len() > 0 ==> tidy(split_lines(tidied(s))),
{
    lemma_split_lines(s);
    lemma_kept_lines(split_lines(s));
    let lines = kept_lines(split_lines(s));
    if lines.len() > 0 {
        lemma_split_joined(lines);
    }
}

/// Tidying a tidied text changes nothing.
pub proof fn lemma_tidied_again(s: Seq<char>)
    ensures
        tidied(tidied(s)) == tidied(s),
{
    lemma_split_lines(s);
    lemma_kept_lines(split_lines(s));
    let lines = kept_lines(split_lines(s));
    if lines.len() > 0 {
        lemma_split_joined(lines);
        lemma_kept_lines_fixed(lines);
    } else {
        let none: Seq<char> = Seq::empty();
        assert(tidied(s) =~= none);
        assert(split_lines(none) =~= seq![none]);
        let no_lines: Seq<Seq<char>> = Seq::empty();
        assert(seq![none].drop_last() =~= no_lines);
        assert(trimmed(none) =~= none);
        assert(kept_lines(no_lines) =~= no_lines);
        assert(kept_lines(seq![none]) =~= no_lines);
    }
}

/// What occurs in one of two texts occurs in both together.
pub proof fn lemma_part_of_sum(a: Seq<char>, b: Seq<char>, part: Seq<char>)
    requires
        has_part(a, part) || has_part(b, part),
    ensures
        has_part(a + b, part),
{
    if has_part(a, part) {
        let i = choose|i: int| occurs_at(a, part, i);
        assert((a + b).subrange(i, i + part.len()) =~= a.subrange(i, i + part.len()));
        assert(occurs_at(a + b, part, i));
    } else {
        let i = choose|i: int| occurs_at(b, part, i);
        let j = a.len() + i;
        assert((a + b).subrange(j, j + part.len()) =~= b.subrange(i, i + part.len()));
        assert(occurs_at(a + b, part, j));
    }
}

/// What `first_place` finds is the first place of the character; it finds one if there is one.
pub proof fn lemma_first_place(s: Seq<char>, c: char)
    ensures
        match first_place(s, c) {
            Some(i) => 0 <= i < s.len() && s[i] == c && forall|j: int|
                0 <= j < i ==> #[trigger] s[j] != c,
            None => !s.contains(c),
        },
    decreases s.len(),
{
    if s.len() > 0 {
        let init = s.drop_last();
        lemma_first_place(init, c);
        assert forall|j: int| 0 <= j < init.len() implies #[trigger] s[j] == init[j] by {}
        if first_place(s, c) is None && s.contains(c) {
            let i = choose|i: int| 0 <= i < s.len() && s[i] == c;
            assert(init[i] == c);
        }
        if first_place(init, c) is None {
            assert forall|j: int| 0 <= j < init.len() implies #[trigger] s[j] != c by {
                assert(init.contains(init[j]));
            }
        }
    }
}

/// What `last_place` finds is the last place of the character; it finds one if there is one.
pub proof fn lemma_last_place(s: Seq<char>, c: char)
    ensures
        match last_place(s, c) {
            Some(i) => 0 <= i < s.len() && s[i] == c && forall|j: int|
                i < j < s.len() ==> #[trigger] s[j] != c,
            None => !s.contains(c),
        },
    decreases s.len(),
{
    if s.len() > 0 {
        let init = s.drop_last();
        lemma_last_place(init, c);
        assert forall|j: int| 0 <= j < init.len() implies #[trigger] s[j] == init[j] by {}
        if last_place(s, c) is None && s.contains(c) {
            let i = choose|i: int| 0 <= i < s.len() && s[i] == c;
            assert(init[i] == c);
        }
    }
}

/// Before a text that does not begin with white space, only what stands in front of it is
/// trimmed at the start.
proof fn lemma_trim_start_before(before: Seq<char>, s: Seq<char>)
    requires
        s.len() > 0,
        !white_space(s[0]),
    ensures
        trim_start(before + s) == trim_start(before) + s,
    decreases before.len(),
{
    let whole = before + s;
    if before.len() > 0 {
        assert(whole[0] == before[0]);
        if white_space(before[0]) {
            assert(whole.skip(1) =~= before.skip(1) + s);
            lemma_trim_start_before(before.skip(1), s);
        }
    } else {
        assert(whole =~= s);
    }
}

/// Behind a text that does not end with white space, only what stands behind it is trimmed at
/// the end.
proof fn lemma_trim_end_behind(s: Seq<char>, after: Seq<char>)
    requires
        s.len() > 0,
        !white_space(s.last()),
    ensures
        trim_end(s + after) == s + trim_end(after),
    decreases after.len(),
{
    let whole = s + after;
    if after.len() > 0 {
        assert(whole.last() == after.last());
        if white_space(after.last()) {
            assert(whole.drop_last() =~= s + after.drop_last());
            lemma_trim_end_behind(s, after.drop_last());
        }
    } else {
        assert(whole =~= s);
    }
}

/// Trimming takes nothing from a text in the middle that has no white space at its ends.
pub proof fn lemma_trimmed_around(before: Seq<char>, s: Seq<char>, after: Seq<char>)
    requires
        s.len() > 0,
        is_trimmed(s),
    ensures
        trimmed(before + s + after) == trim_start(before) + s + trim_end(after),
        forall|c: char| #[trigger] trim_start(before).contains(c) ==> before.contains(c),
        forall|c: char| #[trigger] trim_end(after).contains(c) ==> after.contains(c),
{
    let lead = trim_start(before);
    assert(before + s + after =~= before + (s + after));
    lemma_trim_start_before(before, s + after);
    assert(lead + (s + after) =~= (lead + s) + after);
    assert((lead + s).last() == s.last());
    lemma_trim_end_behind(lead + s, after);
    lemma_trim_start(before);
    lemma_trim_end(after);
    assert forall|c: char| #[trigger] lead.contains(c) implies before.contains(c) by {
        let i = choose|i: int| 0 <= i < lead.len() && lead[i] == c;
        assert(before[before.len() - lead.len() + i] == c);
    }
    assert forall|c: char| #[trigger] trim_end(after).contains(c) implies after.contains(c) by {
        let i = choose|i: int| 0 <= i < trim_end(after).len() && trim_end(after)[i] == c;
        assert(after[i] == c);
    }
}

/// Nothing but white space.
pub open spec fn blank(s: Seq<char>) -> bool {
    forall|i: int| 0 <= i < s.len() ==> white_space(#[trigger] s[i])
}

/// White space in front is trimmed, and what begins with something else stays.
pub proof fn lemma_trim_start_blank(lead: Seq<char>, s: Seq<char>)
    requires
        blank(lead),
        s.len() == 0 || !white_space(s[0]),
    ensures
        trim_start(lead + s) == s,
    decreases lead.len(),
{
    let whole = lead + s;
    if lead.len() > 0 {
        assert(whole[0] == lead[0]);
        assert(whole.skip(1) =~= lead.skip(1) + s);
        assert(blank(lead.skip(1))) by {
            assert forall|i: int| 0 <= i < lead.skip(1).len() implies white_space(
                #[trigger] lead.skip(1)[i],
            ) by {
                assert(lead.skip(1)[i] == lead[i + 1]);
            }
        }
        lemma_trim_start_blank(lead.skip(1), s);
    } else {
        assert(whole =~= s);
    }
}

/// A part of a text is what is left of it between a beginning and an end.
pub proof fn lemma_has_part(whole: Seq<char>, part: Seq<char>)
    ensures
        has_part(whole, part) <==> exists|before: Seq<char>, after: Seq<char>|
            whole == #[trigger] (before + part + after),
{
    if has_part(whole, part) {
        let i = choose|i: int| occurs_at(whole, part, i);
        let before = whole.take(i);
        let after = whole.skip(i + part.len());
        assert(whole.subrange(i, i + part.len()) == part);
        assert(before + part + after =~= whole);
    }
    if exists|before: Seq<char>, after: Seq<char>| whole == #[trigger] (before + part + after) {
        let (before, after) = choose|before: Seq<char>, after: Seq<char>|
            whole == #[trigger] (before + part + after);
        let i = before.len() as int;
        assert(whole.subrange(i, i + part.len()) =~= part);
        assert(occurs_at(whole, part, i));
    }
}

/// What is trimmed away at the ends is white space, and nothing else is.
pub proof fn lemma_trimmed_away(s: Seq<char>)
    ensures
        exists|lead: Seq<char>, trail: Seq<char>|
            blank(lead) && blank(trail) && s == #[trigger] (lead + trimmed(s) + trail),
{
    let t = trim_start(s);
    let n = s.len() - t.len();
    lemma_trim_start(s);
    lemma_trim_end(t);
    lemma_trim_end_blank(t);
    let lead = s.take(n);
    let trail = t.skip(trim_end(t).len() as int);
    assert(blank(lead));
    assert(lead + trimmed(s) + trail =~= s);
}

/// All that is trimmed away at the end is white space.
proof fn lemma_trim_end_blank(s: Seq<char>)
    ensures
        trim_end(s).len() <= s.len(),
        blank(s.skip(trim_end(s).len() as int)),
    decreases s.len(),
{
    if s.len() > 0 && white_space(s.last()) {
        let init = s.drop_last();
        lemma_trim_end_blank(init);
        let n = trim_end(init).len() as int;
        assert forall|i: int| 0 <= i < s.skip(n).len() implies white_space(
            #[trigger] s.skip(n)[i],
        ) by {
            if i < init.skip(n).len() {
                assert(init.skip(n)[i] == s.skip(n)[i]);
            }
        }
    }
}

/// The lines of a text, joined by line feeds, are the text again; no line holds a line feed.
pub proof fn lemma_lines(s: Seq<char>)
    ensures
        split_lines(s).len() > 0,
        joined(split_lines(s), seq!['\n']) == s,
        forall|i: int| 0 <= i < split_lines(s).len() ==> !(#[trigger] split_lines(s)[i]).contains('\n'),
    decreases s.len(),
{
    lemma_split_lines(s);
    let none: Seq<char> = Seq::empty();
    if s.len() == 0 {
        assert(joined(split_lines(s), seq!['\n']) =~= s);
    } else {
        let init = s.drop_last();
        lemma_lines(init);
        let before = split_lines(init);
        if s.last() == '\n' {
            assert(before.push(none).drop_last() =~= before);
            assert(joined(before.push(none), seq!['\n']) =~= s);
        } else {
            let last = before.last().push(s.last());
            let lines = before.drop_last().push(last);
            assert(lines.drop_last() =~= before.drop_last());
            if before.len() == 1 {
                assert(lines[0] == last);
                assert(init =~= before[0]);
            } else {
                assert(init == joined(before.drop_last(), seq!['\n']) + seq!['\n'] + before.last());
                assert(joined(lines, seq!['\n']) == joined(before.drop_last(), seq!['\n']) + seq![
                    '\n',
                ] + last);
            }
            assert(joined(lines, seq!['\n']) =~= init.push(s.last()));
            assert(init.push(s.last()) =~= s);
        }
    }
}

/// A tidied text consists of the lines of the text, each trimmed, but for those of which then
/// nothing is left.
pub proof fn lemma_tidied_lines(s: Seq<char>)
    ensures
        tidied(s) == joined(
            split_lines(s).map_values(|line: Seq<char>| trimmed(line)).filter(
                |line: Seq<char>| line.len() > 0,
            ),
            seq!['\n'],
        ),
{
    lemma_kept_filtered(split_lines(s));
}

/// The kept lines as a filter.
proof fn lemma_kept_filtered(lines: Seq<Seq<char>>)
    ensures
        kept_lines(lines) == lines.map_values(|line: Seq<char>| trimmed(line)).filter(
            |line: Seq<char>| line.len() > 0,
        ),
    decreases lines.len(),
{
    reveal(Seq::filter);
    let f = |line: Seq<char>| trimmed(line);
    if lines.len() > 0 {
        lemma_kept_filtered(lines.drop_last());
        assert(lines.map_values(f).drop_last() =~= lines.drop_last().map_values(f));
    } else {
        assert(kept_lines(lines) =~= lines.map_values(f).filter(|line: Seq<char>| line.len() > 0));
    }
}

/// Joining puts the separator between two neighbours and nowhere else.
pub proof fn lemma_joined(parts: Seq<Seq<char>>, part: Seq<char>, sep: Seq<char>)
    ensures
        joined(Seq::empty(), sep).len() == 0,
        joined(seq![part], sep) == part,
        parts.len() > 0 ==> joined(parts.push(part), sep) == joined(parts, sep) + sep + part,
{
    assert(parts.push(part).drop_last() =~= parts);
}

/// The decimal notation digit by digit.
pub proof fn lemma_decimal(n: nat, d: nat)
    requires
        d < 10,
    ensures
        decimal(d).len() == 1,
        decimal(d)[0] as int == '0' as int + d,
        n > 0 ==> decimal(10 * n + d) == decimal(n).push(decimal(d)[0]),
{
    if n > 0 {
        let m = 10 * n + d;
        assert(m / 10 == n && m % 10 == d);
        assert(decimal(m) == decimal(m / 10).push(digit(m % 10)));
    }
}

/// A text comes no later than what it begins, and of two texts that differ the first byte that
/// differs decides.
pub proof fn lemma_bytes_le(p: Seq<u8>, x: u8, s: Seq<u8>, y: u8, t: Seq<u8>)
    ensures
        bytes_le(p, p + s),
        s.len() > 0 ==> !bytes_le(p + s, p),
        x != y ==> (bytes_le(p + seq![x] + s, p + seq![y] + t) <==> x < y),
    decreases p.len(),
{
    let a = p + seq![x] + s;
    let b = p + seq![y] + t;
    if p.len() > 0 {
        let q = p.skip(1);
        lemma_bytes_le(q, x, s, y, t);
        assert((p + s).skip(1) =~= q + s);
        assert(a.skip(1) =~= q + seq![x] + s);
        assert(b.skip(1) =~= q + seq![y] + t);
    }
}

/// Texts are ordered by the bytes of their UTF-8 encodings.
pub proof fn lemma_text_le_bytes(a: Seq<char>, b: Seq<char>)
    ensures
        text_le(a, b) <==> bytes_le(encode_utf8(a), encode_utf8(b)),
{
}

/// A list of strings holds the text of each of them, in their order.
pub proof fn lemma_texts(v: Seq<String>, i: int)
    ensures
        texts(v).len() == v.len(),
        0 <= i < v.len() ==> texts(v)[i] == v[i]@,
{
}

} // verus!
