//! The regular expressions, and the other conversions of text that are left to `regex`,
//! `html_escape` and the standard library.

use vstd::prelude::*;

use crate::text::{
    blank, chinese, first_place, has_part, last_place, lemma_first_place, lemma_last_place,
    lemma_trim_start, lemma_trim_start_blank, occurs_at, trim_start, white_space,
};

verus! {

/// A line break element.
pub const BR_PATTERN: &'static str = r"(?i)<\s*br\s*/?\s*>";

/// The closing tag of a block element.
pub const BLOCK_PATTERN: &'static str = r"(?i)</\s*(p|div|li|h[1-6])\s*>";

/// Any other tag.
pub const TAG_PATTERN: &'static str = r"<[^>]+>";

/// The sentence that announces a question to be answered.
pub const QA_PATTERN: &'static str =
    r"(?i)get ready to answer the (first|second|third|fourth|fifth|sixth|seventh|eighth|ninth|tenth) question";

/// The Chinese number of a question.
pub const ZH_NUMBER_PATTERN: &'static str = r"第([一二三四五六七八九十])个问题";

/// The assignment of the page's configuration, up to the end of the page.
pub const PAGE_PATTERN: &'static str = r"(?s)var\s+pageConfig\s*=\s*(\{.*\})\s*;?\s*$";

/// The patterns with one group, which takes part in every match.
pub open spec fn is_group_pattern(pattern: Seq<char>) -> bool {
    pattern == ZH_NUMBER_PATTERN@ || pattern == PAGE_PATTERN@
}

/// `s` begins with `part`.
pub open spec fn begins_with(s: Seq<char>, part: Seq<char>) -> bool {
    part.len() <= s.len() && s.take(part.len() as int) == part
}

/// `c` is the letter or other character `p`, in either case; the long `ſ` is an `s` too.
pub open spec fn same_letter(c: char, p: char) -> bool {
    ||| c == p
    ||| 'a' <= p <= 'z' && c as int == p as int - 32
    ||| p == 's' && c == 'ſ'
}

/// `s` begins with the letters of `word`, in either case.
pub open spec fn begins_with_letters(s: Seq<char>, word: Seq<char>) -> bool {
    word.len() <= s.len() && forall|i: int|
        0 <= i < word.len() ==> same_letter(#[trigger] s[i], word[i])
}

/// What follows `c` at the beginning of `s`.
pub open spec fn after_char(s: Seq<char>, c: char) -> Option<Seq<char>> {
    if s.len() > 0 && s[0] == c {
        Some(s.skip(1))
    } else {
        None
    }
}

/// What follows an optional `c` and white space at the beginning of `s`.
pub open spec fn after_optional(s: Seq<char>, c: char) -> Seq<char> {
    match after_char(s, c) {
        Some(t) => trim_start(t),
        None => s,
    }
}

/// What follows a match of `BR_PATTERN` at the beginning of a text.
pub open spec fn br_rest() -> spec_fn(Seq<char>) -> Option<Seq<char>> {
    |s: Seq<char>|
        match after_char(s, '<') {
            Some(t) => {
                let name = trim_start(t);
                if begins_with_letters(name, seq!['b', 'r']) {
                    after_char(after_optional(trim_start(name.skip(2)), '/'), '>')
                } else {
                    None
                }
            },
            None => None,
        }
}

/// What follows the name of a block element at the beginning of a text.
pub open spec fn after_block_name(s: Seq<char>) -> Option<Seq<char>> {
    if begins_with_letters(s, seq!['p']) {
        Some(s.skip(1))
    } else if begins_with_letters(s, seq!['d', 'i', 'v']) {
        Some(s.skip(3))
    } else if begins_with_letters(s, seq!['l', 'i']) {
        Some(s.skip(2))
    } else if begins_with_letters(s, seq!['h']) && s.len() >= 2 && '1' <= s[1] <= '6' {
        Some(s.skip(2))
    } else {
        None
    }
}

/// What follows a match of `BLOCK_PATTERN` at the beginning of a text.
pub open spec fn block_rest() -> spec_fn(Seq<char>) -> Option<Seq<char>> {
    |s: Seq<char>|
        if s.len() >= 2 && s[0] == '<' && s[1] == '/' {
            match after_block_name(trim_start(s.skip(2))) {
                Some(t) => after_char(trim_start(t), '>'),
                None => None,
            }
        } else {
            None
        }
}

/// What follows a match of `TAG_PATTERN` at the beginning of a text.
pub open spec fn tag_rest() -> spec_fn(Seq<char>) -> Option<Seq<char>> {
    |s: Seq<char>|
        match after_char(s, '<') {
            Some(t) => match first_place(t, '>') {
                Some(k) => if k >= 1 {
                    Some(t.skip(k + 1))
                } else {
                    None
                },
                None => None,
            },
            None => None,
        }
}

/// `s` with every match replaced by `by`, from left to right, where `rest` gives what follows
/// a match at the beginning of a text.
pub open spec fn replaced(
    s: Seq<char>,
    rest: spec_fn(Seq<char>) -> Option<Seq<char>>,
    by: Seq<char>,
) -> Seq<char>
    decreases s.len(),
{
    if s.len() == 0 {
        s
    } else if rest(s) is Some && rest(s)->0.len() < s.len() {
        by + replaced(rest(s)->0, rest, by)
    } else {
        seq![s[0]] + replaced(s.skip(1), rest, by)
    }
}

/// Calls `regex::Regex::replace_all` for one of the patterns of markup, all of which compile:
/// every match, from left to right and none overlapping another, gives way to the
/// replacement, which holds no reference to a group. White space (`\s`) is that of Unicode;
/// none of the letters in the patterns has more than two cases.
#[verifier::external_body]
pub(crate) fn regex_replace_all(pattern: &str, text: &str, replacement: &str) -> (r: String)
    requires
        pattern@ == BR_PATTERN@ || pattern@ == BLOCK_PATTERN@ || pattern@ == TAG_PATTERN@,
        replacement@ == "\n"@ || replacement@ == ""@,
    ensures
        pattern@ == BR_PATTERN@ ==> r@ == replaced(text@, br_rest(), replacement@),
        pattern@ == BLOCK_PATTERN@ ==> r@ == replaced(text@, block_rest(), replacement@),
        pattern@ == TAG_PATTERN@ ==> r@ == replaced(text@, tag_rest(), replacement@),
{
    regex::Regex::new(pattern).unwrap().replace_all(text, replacement).into_owned()
}

/// The phrases that number a question in English, from the first to the tenth.
pub open spec fn en_phrases() -> Seq<Seq<char>> {
    seq![
        "first question"@,
        "second question"@,
        "third question"@,
        "fourth question"@,
        "fifth question"@,
        "sixth question"@,
        "seventh question"@,
        "eighth question"@,
        "ninth question"@,
        "tenth question"@,
    ]
}

/// At position `i` of `text` the `k`-th question is announced, counted from zero.
pub open spec fn announced_at(text: Seq<char>, i: int, k: int) -> bool {
    &&& 0 <= i <= text.len()
    &&& 0 <= k < 10
    &&& begins_with_letters(text.skip(i), "get ready to answer the "@ + en_phrases()[k])
}

/// One of the first ten questions is announced somewhere in `text`.
pub open spec fn announced(text: Seq<char>) -> bool {
    exists|i: int, k: int| announced_at(text, i, k)
}

/// Calls `regex::Regex::is_match` for the announcement pattern, which compiles: whether the
/// announcement stands somewhere in the text, its letters in either case, where the long `ſ`
/// is an `s` too.
#[verifier::external_body]
pub(crate) fn regex_is_match(pattern: &str, text: &str) -> (r: bool)
    requires
        pattern@ == QA_PATTERN@,
    ensures
        r == announced(text@),
{
    regex::Regex::new(pattern).unwrap().is_match(text)
}

/// The Chinese numerals that can number a question, in order.
pub open spec fn zh_digits() -> Seq<char> {
    seq!['一', '二', '三', '四', '五', '六', '七', '八', '九', '十']
}

/// At position `i` of `text` the question with the number `d` is named.
pub open spec fn zh_number_at(text: Seq<char>, i: int, d: char) -> bool {
    &&& 0 <= i
    &&& i + 5 <= text.len()
    &&& zh_digits().contains(d)
    &&& text.subrange(i, i + 5) == seq!['第', d, '个', '问', '题']
}

/// What is assigned to `pageConfig` at the beginning of `s`, with all that follows, if an
/// opening brace begins it.
pub open spec fn assigned(s: Seq<char>) -> Option<Seq<char>> {
    let spaced = s.skip(3);
    let name = trim_start(spaced);
    if begins_with(s, "var"@) && name.len() < spaced.len() && begins_with(name, "pageConfig"@) {
        match after_char(trim_start(name.skip(10)), '=') {
            Some(t) => if trim_start(t).len() > 0 && trim_start(t)[0] == '{' {
                Some(trim_start(t))
            } else {
                None
            },
            None => None,
        }
    } else {
        None
    }
}

/// `s` up to its last closing brace, if behind it nothing comes but white space with at most
/// one semicolon in it.
pub open spec fn up_to_end(s: Seq<char>) -> Option<Seq<char>> {
    match last_place(s, '}') {
        Some(b) => if after_optional(trim_start(s.skip(b + 1)), ';').len() == 0 {
            Some(s.take(b + 1))
        } else {
            None
        },
        None => None,
    }
}

/// What the first assignment to `pageConfig` assigns that reaches to the end of the text: from
/// an opening to the last closing brace.
pub open spec fn page_object(text: Seq<char>) -> Option<Seq<char>>
    decreases text.len(),
{
    if text.len() == 0 {
        None
    } else if assigned(text) is Some && up_to_end(assigned(text)->0) is Some {
        up_to_end(assigned(text)->0)
    } else {
        page_object(text.skip(1))
    }
}

/// Calls `regex::Regex::captures` for one of the two patterns with a group, which compile,
/// and takes what the group holds in the leftmost match. For the number pattern it is the
/// numeral at the first place where a number stands, for the page pattern what `pageConfig`
/// is assigned at the end of the text.
#[verifier::external_body]
pub(crate) fn regex_capture(pattern: &str, text: &str) -> (r: Option<String>)
    requires
        is_group_pattern(pattern@),
    ensures
        pattern@ == ZH_NUMBER_PATTERN@ ==> match r {
            Some(s) => s@.len() == 1 && exists|i: int| #[trigger]
                zh_number_at(text@, i, s@[0]) && forall|k: int, d: char|
                    k < i ==> !zh_number_at(text@, k, d),
            None => forall|k: int, d: char| !zh_number_at(text@, k, d),
        },
        pattern@ == PAGE_PATTERN@ ==> match r {
            Some(s) => page_object(text@) == Some(s@),
            None => page_object(text@) is None,
        },
{
    regex::Regex::new(pattern).unwrap().captures(text).map(|groups| groups[1].to_string())
}

/// `html_escape::decode_html_entities`: `text` with its character references decoded.
pub uninterp spec fn entities_decoded(text: Seq<char>) -> Seq<char>;

/// Calls `html_escape::decode_html_entities`. The result is a function of the text; a text
/// without `&` holds no character reference and comes back as it is.
#[verifier::external_body]
pub(crate) fn decode_entities(text: &str) -> (r: String)
    ensures
        r@ == entities_decoded(text@),
        !text@.contains('&') ==> r@ == text@,
{
    html_escape::decode_html_entities(text).into_owned()
}

/// `str::to_lowercase`: the lowercase equivalent of `text`.
pub uninterp spec fn lowercase(text: Seq<char>) -> Seq<char>;

/// A text of ASCII and Chinese characters only.
pub open spec fn common_text(s: Seq<char>) -> bool {
    forall|i: int| 0 <= i < s.len() ==> #[trigger] s[i] <= '\u{7f}' || chinese(s[i])
}

/// The lowercase letter of an uppercase one of ASCII, any other character itself.
pub open spec fn ascii_lower(c: char) -> char {
    if 'A' <= c <= 'Z' {
        (c as int + 32) as char
    } else {
        c
    }
}

/// `s` with every uppercase letter of ASCII made lowercase.
pub open spec fn ascii_lowered(s: Seq<char>) -> Seq<char> {
    Seq::new(s.len(), |i: int| ascii_lower(s[i]))
}

/// Calls `str::to_lowercase`. The result is a function of the text. In a text of ASCII and
/// Chinese characters only, the letters of ASCII are made lowercase one by one; Chinese has no
/// case and stays as it is.
#[verifier::external_body]
pub(crate) fn to_lowercase(text: &str) -> (r: String)
    ensures
        r@ == lowercase(text@),
        common_text(text@) ==> r@ == ascii_lowered(text@),
{
    text.to_lowercase()
}

/// `char::is_alphanumeric`: whether `c` is alphabetic or numeric by its Unicode properties.
pub uninterp spec fn alphanumeric(c: char) -> bool;

/// The letters and digits of ASCII.
pub open spec fn ascii_alphanumeric(c: char) -> bool {
    ('a' <= c <= 'z') || ('A' <= c <= 'Z') || ('0' <= c <= '9')
}

/// `char::is_alphanumeric` is a function of the character. Of the ASCII characters the
/// letters and digits are alphanumeric, the others are not; Chinese characters are.
pub assume_specification[ char::is_alphanumeric ](c: char) -> (r: bool)
    ensures
        r == alphanumeric(c),
        c <= '\u{7f}' ==> r == ascii_alphanumeric(c),
        chinese(c) ==> r,
;

/// Every match that `rest` knows of begins with `<`.
pub open spec fn begins_with_bracket(rest: spec_fn(Seq<char>) -> Option<Seq<char>>) -> bool {
    forall|s: Seq<char>| #[trigger] rest(s) is Some ==> s.len() > 0 && s[0] == '<'
}

/// A text without `<` has no markup to replace.
pub proof fn lemma_replaced_plain(
    s: Seq<char>,
    rest: spec_fn(Seq<char>) -> Option<Seq<char>>,
    by: Seq<char>,
)
    requires
        begins_with_bracket(rest),
        !s.contains('<'),
    ensures
        replaced(s, rest, by) == s,
    decreases s.len(),
{
    if s.len() > 0 {
        assert(s.contains(s[0]));
        let tail = s.skip(1);
        assert(!tail.contains('<')) by {
            if tail.contains('<') {
                let i = choose|i: int| 0 <= i < tail.len() && tail[i] == '<';
                assert(s[i + 1] == '<');
            }
        }
        lemma_replaced_plain(tail, rest, by);
        assert(seq![s[0]] + tail =~= s);
    }
}

/// Somewhere `<` is followed by something other than `>`, and later by `>`.
pub open spec fn has_tag(s: Seq<char>) -> bool {
    exists|i: int, k: int|
        #![trigger s[i], s[k]]
        0 <= i && i + 2 <= k < s.len() && s[i] == '<' && s[i + 1] != '>' && s[k] == '>'
}

/// Removing tags adds no character.
proof fn lemma_untagged_chars(s: Seq<char>)
    ensures
        forall|c: char| #[trigger]
            replaced(s, tag_rest(), Seq::empty()).contains(c) ==> s.contains(c),
    decreases s.len(),
{
    let none: Seq<char> = Seq::empty();
    let r = replaced(s, tag_rest(), none);
    if s.len() > 0 {
        lemma_first_place(s.skip(1), '>');
        let matched = tag_rest()(s) is Some && tag_rest()(s)->0.len() < s.len();
        let tail = if matched {
            tag_rest()(s)->0
        } else {
            s.skip(1)
        };
        lemma_untagged_chars(tail);
        let below = replaced(tail, tag_rest(), none);
        let n = s.len() - tail.len();
        assert(tail =~= s.skip(n));
        assert forall|c: char| #[trigger] r.contains(c) implies s.contains(c) by {
            let i = choose|i: int| 0 <= i < r.len() && r[i] == c;
            if matched {
                assert(r =~= below);
                assert(below.contains(c));
            } else if i == 0 {
                assert(s[0] == c);
            } else {
                assert(below[i - 1] == c);
                assert(below.contains(c));
            }
            if below.contains(c) {
                let j = choose|j: int| 0 <= j < tail.len() && tail[j] == c;
                assert(s[n + j] == c);
            }
        }
    }
}

/// Once the tags are removed, none is left, nor has a new one come about.
pub proof fn lemma_no_tags(s: Seq<char>)
    ensures
        !has_tag(replaced(s, tag_rest(), Seq::empty())),
    decreases s.len(),
{
    let none: Seq<char> = Seq::empty();
    let r = replaced(s, tag_rest(), none);
    if s.len() > 0 {
        let tail = s.skip(1);
        lemma_first_place(tail, '>');
        if tag_rest()(s) is Some && tag_rest()(s)->0.len() < s.len() {
            let t = tag_rest()(s)->0;
            lemma_no_tags(t);
            assert(r =~= replaced(t, tag_rest(), none));
        } else {
            lemma_no_tags(tail);
            lemma_untagged_chars(tail);
            let below = replaced(tail, tag_rest(), none);
            assert(r =~= seq![s[0]] + below);
            if has_tag(r) {
                let (i, k) = choose|i: int, k: int|
                    #![trigger r[i], r[k]]
                    0 <= i && i + 2 <= k < r.len() && r[i] == '<' && r[i + 1] != '>' && r[k]
                        == '>';
                assert(below[k - 1] == '>');
                if i > 0 {
                    assert(below[i - 1] == '<');
                    assert(below[i] != '>');
                    assert(has_tag(below));
                } else {
                    assert(below.contains('>'));
                    assert(tail.contains('>'));
                    assert(tail[0] == '>');
                    assert(below[0] == '>');
                }
            }
        }
    }
}

/// The page pattern finds what a page assigns to `pageConfig`, with or without a semicolon
/// behind it.
pub proof fn lemma_page_object(json: Seq<char>, semicolon: bool)
    requires
        json.len() > 0,
        json[0] == '{',
        json.last() == '}',
    ensures
        page_object(
            "var pageConfig = "@ + json + (if semicolon {
                ";"@
            } else {
                ""@
            }),
        ) == Some(json),
{
    reveal_strlit("var pageConfig = ");
    reveal_strlit("var");
    reveal_strlit("pageConfig");
    reveal_strlit(";");
    reveal_strlit("");
    let end = if semicolon {
        ";"@
    } else {
        ""@
    };
    let body = json + end;
    let text = "var pageConfig = "@ + json + end;
    let none: Seq<char> = Seq::empty();
    assert(text.take(3) =~= "var"@);
    let spaced = text.skip(3);
    let name = spaced.skip(1);
    assert(trim_start(spaced) == trim_start(name));
    assert(trim_start(name) == name);
    assert(name.take(10) =~= "pageConfig"@);
    let sign = name.skip(10);
    assert(trim_start(sign) == trim_start(sign.skip(1)));
    assert(trim_start(sign.skip(1)) == sign.skip(1));
    assert(sign.skip(1).skip(1).skip(1) =~= body);
    assert(trim_start(sign.skip(1).skip(1)) == trim_start(body));
    assert(trim_start(body) == body);
    assert(assigned(text) == Some(body));
    lemma_last_place(body, '}');
    assert(body[json.len() - 1] == '}');
    assert(body.contains(body[json.len() - 1]));
    assert(last_place(body, '}') == Some(json.len() - 1));
    assert(body.skip(json.len() as int) =~= end);
    assert(body.take(json.len() as int) =~= json);
    if semicolon {
        assert(trim_start(end) == end);
        assert(end.skip(1) =~= none);
        assert(trim_start(none) == none);
    }
}

/// What `assigned` finds begins at the first opening brace, and the name `pageConfig` stands
/// before it; gives where both begin.
proof fn lemma_assigned_place(s: Seq<char>) -> (r: (int, int))
    requires
        assigned(s) is Some,
    ensures
        0 <= r.0,
        r.0 + 10 <= r.1 < s.len(),
        occurs_at(s, "pageConfig"@, r.0),
        assigned(s) == Some(s.skip(r.1)),
        s[r.1] == '{',
        forall|k: int| 0 <= k < r.1 ==> #[trigger] s[k] != '{',
{
    reveal_strlit("var");
    reveal_strlit("pageConfig");
    let spaced = s.skip(3);
    let name = trim_start(spaced);
    lemma_trim_start(spaced);
    let q = 3 + spaced.len() - name.len();
    assert(name =~= s.skip(q));
    assert(s.subrange(q, q + 10) =~= name.take(10));
    let gap = name.skip(10);
    let sign = trim_start(gap);
    lemma_trim_start(gap);
    let e = q + 10 + gap.len() - sign.len();
    assert(gap =~= s.skip(q + 10));
    assert(sign =~= s.skip(e));
    let t = sign.skip(1);
    lemma_trim_start(t);
    let n = e + 1 + t.len() - trim_start(t).len();
    assert(t =~= s.skip(e + 1));
    assert(trim_start(t) =~= s.skip(n));
    assert(s[n] == trim_start(t)[0]);
    assert forall|k: int| 0 <= k < n implies #[trigger] s[k] != '{' by {
        if k < 3 {
            assert(s[k] == s.take(3)[k]);
        } else if k < q {
            assert(s[k] == spaced[k - 3]);
        } else if k < q + 10 {
            assert(s[k] == name.take(10)[k - q]);
        } else if k < e {
            assert(s[k] == gap[k - q - 10]);
        } else if k == e {
            assert(s[k] == sign[0]);
        } else {
            assert(s[k] == t[k - e - 1]);
        }
    }
    (q, n)
}

/// What does not occur in a text does not occur in it once its first character is gone.
proof fn lemma_no_part_skip(s: Seq<char>, part: Seq<char>)
    requires
        s.len() > 0,
        !has_part(s, part),
    ensures
        !has_part(s.skip(1), part),
{
    if has_part(s.skip(1), part) {
        let i = choose|i: int| occurs_at(s.skip(1), part, i);
        assert(s.skip(1).subrange(i, i + part.len()) =~= s.subrange(i + 1, i + 1 + part.len()));
        assert(occurs_at(s, part, i + 1));
    }
}

/// Without the name `pageConfig` up to the last closing brace, the page pattern finds nothing.
proof fn lemma_nothing_assigned(json: Seq<char>, after: Seq<char>)
    requires
        !has_part(json, "pageConfig"@),
        !after.contains('}'),
    ensures
        page_object(json + after) is None,
    decreases json.len() + after.len(),
{
    let text = json + after;
    if text.len() > 0 {
        reveal_strlit("pageConfig");
        if assigned(text) is Some && up_to_end(assigned(text)->0) is Some {
            let (q, n) = lemma_assigned_place(text);
            let body = text.skip(n);
            lemma_last_place(body, '}');
            let b = last_place(body, '}')->0;
            assert(text[n + b] == '}');
            if n + b >= json.len() {
                assert(after[n + b - json.len()] == '}');
            }
            assert(json.subrange(q, q + 10) =~= text.subrange(q, q + 10));
            assert(occurs_at(json, "pageConfig"@, q));
        }
        if json.len() > 0 {
            lemma_no_part_skip(json, "pageConfig"@);
            assert(text.skip(1) =~= json.skip(1) + after);
            lemma_nothing_assigned(json.skip(1), after);
        } else {
            let rest = after.skip(1);
            assert(text.skip(1) =~= json + rest);
            assert(!rest.contains('}')) by {
                if rest.contains('}') {
                    let i = choose|i: int| 0 <= i < rest.len() && rest[i] == '}';
                    assert(after[i + 1] == '}');
                }
            }
            lemma_nothing_assigned(json, rest);
        }
    }
}

/// Of an object in braces with text around it, the page pattern finds either just the object
/// or nothing.
pub proof fn lemma_page_object_around(before: Seq<char>, json: Seq<char>, after: Seq<char>)
    requires
        json.len() > 0,
        json[0] == '{',
        json.last() == '}',
        !before.contains('{'),
        !after.contains('}'),
        !has_part(json, "pageConfig"@),
    ensures
        page_object(before + json + after) is Some ==> page_object(before + json + after) == Some(
            json,
        ),
    decreases before.len(),
{
    let text = before + json + after;
    if before.len() == 0 {
        assert(text =~= json + after);
        lemma_nothing_assigned(json, after);
    } else {
        if assigned(text) is Some && up_to_end(assigned(text)->0) is Some {
            let (_, n) = lemma_assigned_place(text);
            assert(text[before.len() as int] == '{');
            if n < before.len() {
                assert(before[n] == '{');
            }
            assert(n == before.len());
            let body = json + after;
            assert(text.skip(n) =~= body);
            lemma_last_place(body, '}');
            assert(body[json.len() - 1] == '}');
            let b = last_place(body, '}')->0;
            if b >= json.len() {
                assert(after[b - json.len()] == '}');
            }
            assert(body.take(json.len() as int) =~= json);
        }
        let rest = before.skip(1);
        assert(!rest.contains('{')) by {
            if rest.contains('{') {
                let i = choose|i: int| 0 <= i < rest.len() && rest[i] == '{';
                assert(before[i + 1] == '{');
            }
        }
        assert(text.skip(1) =~= rest + json + after);
        lemma_page_object_around(rest, json, after);
    }
}

/// What the page pattern finds begins with an opening and ends with a closing brace.
pub proof fn lemma_page_object_braces(text: Seq<char>)
    requires
        page_object(text) is Some,
    ensures
        page_object(text)->0.len() >= 2,
        page_object(text)->0[0] == '{',
        page_object(text)->0.last() == '}',
    decreases text.len(),
{
    if assigned(text) is Some && up_to_end(assigned(text)->0) is Some {
        lemma_last_place(assigned(text)->0, '}');
    } else {
        lemma_page_object_braces(text.skip(1));
    }
}

/// What stands in front without `<` is not touched by a replacement of markup.
pub proof fn lemma_replaced_behind(
    front: Seq<char>,
    s: Seq<char>,
    rest: spec_fn(Seq<char>) -> Option<Seq<char>>,
    by: Seq<char>,
)
    requires
        begins_with_bracket(rest),
        !front.contains('<'),
    ensures
        replaced(front + s, rest, by) == front + replaced(s, rest, by),
    decreases front.len(),
{
    let whole = front + s;
    if front.len() > 0 {
        assert(whole[0] == front[0]);
        assert(front.contains(front[0]));
        let tail = front.skip(1);
        assert(!tail.contains('<')) by {
            if tail.contains('<') {
                let i = choose|i: int| 0 <= i < tail.len() && tail[i] == '<';
                assert(front[i + 1] == '<');
            }
        }
        assert(whole.skip(1) =~= tail + s);
        lemma_replaced_behind(tail, s, rest, by);
        assert(seq![whole[0]] + (tail + replaced(s, rest, by)) =~= front + replaced(s, rest, by));
    } else {
        assert(whole =~= s);
        assert(front + replaced(s, rest, by) =~= replaced(s, rest, by));
    }
}

/// A line break element is found, however it is written.
pub proof fn lemma_br_tag(
    lead: Seq<char>,
    b: char,
    r: char,
    mid: Seq<char>,
    slash: bool,
    trail: Seq<char>,
    after: Seq<char>,
)
    requires
        blank(lead),
        b == 'b' || b == 'B',
        r == 'r' || r == 'R',
        blank(mid),
        blank(trail),
    ensures
        ({
            let bar: Seq<char> = if slash {
                seq!['/']
            } else {
                Seq::empty()
            };
            let tag = seq!['<'] + lead + seq![b, r] + mid + bar + trail + seq!['>'];
            replaced(tag + after, br_rest(), seq!['\n']) == seq!['\n'] + replaced(
                after,
                br_rest(),
                seq!['\n'],
            )
        }),
{
    let bar: Seq<char> = if slash {
        seq!['/']
    } else {
        Seq::empty()
    };
    let tag = seq!['<'] + lead + seq![b, r] + mid + bar + trail + seq!['>'];
    let text = tag + after;
    let end = seq!['>'] + after;
    let closing = bar + trail + end;
    let name = seq![b, r] + (mid + closing);
    assert(text.skip(1) =~= lead + name);
    lemma_trim_start_blank(lead, name);
    assert(begins_with_letters(name, seq!['b', 'r']));
    assert(name.skip(2) =~= mid + closing);
    if slash {
        lemma_trim_start_blank(mid, closing);
        assert(closing.skip(1) =~= trail + end);
        lemma_trim_start_blank(trail, end);
    } else {
        assert(mid + closing =~= (mid + trail) + end);
        assert(blank(mid + trail));
        lemma_trim_start_blank(mid + trail, end);
    }
    assert(end.skip(1) =~= after);
    assert(br_rest()(text) == Some(after));
}

/// The closing tag of a block element is found.
pub proof fn lemma_block_tag(lead: Seq<char>, name: Seq<char>, trail: Seq<char>, after: Seq<char>)
    requires
        blank(lead),
        blank(trail),
        ({
            ||| name == seq!['p'] || name == seq!['P']
            ||| name == seq!['d', 'i', 'v'] || name == seq!['D', 'I', 'V'] || name == seq![
                'D',
                'i',
                'v',
            ]
            ||| name == seq!['l', 'i'] || name == seq!['L', 'I'] || name == seq!['L', 'i']
            ||| name.len() == 2 && (name[0] == 'h' || name[0] == 'H') && '1' <= name[1] <= '6'
        }),
    ensures
        replaced(
            (seq!['<', '/'] + lead + name + trail + seq!['>']) + after,
            block_rest(),
            seq!['\n'],
        ) == seq!['\n'] + replaced(after, block_rest(), seq!['\n']),
{
    let text = (seq!['<', '/'] + lead + name + trail + seq!['>']) + after;
    let end = seq!['>'] + after;
    let named = name + (trail + end);
    assert(text.skip(2) =~= lead + named);
    lemma_trim_start_blank(lead, named);
    assert(named.skip(name.len() as int) =~= trail + end);
    assert forall|i: int| 0 <= i < name.len() implies #[trigger] named[i] == name[i] by {}
    assert(named[0] == name[0]);
    assert(after_block_name(named) == Some(trail + end));
    lemma_trim_start_blank(trail, end);
    assert(end.skip(1) =~= after);
    assert(block_rest()(text) == Some(after));
}

/// A tag that is no line break is passed over when line breaks are replaced.
pub proof fn lemma_other_tag(tag: Seq<char>, after: Seq<char>)
    requires
        tag.len() > 1,
        tag[0] == '<',
        !white_space(tag[1]),
        tag[1] == 'b' || tag[1] == 'B' ==> tag.len() > 2 && tag[2] != 'r' && tag[2] != 'R',
        !tag.skip(1).contains('<'),
    ensures
        replaced(tag + after, br_rest(), seq!['\n']) == tag + replaced(
            after,
            br_rest(),
            seq!['\n'],
        ),
{
    let text = tag + after;
    let inner = tag.skip(1);
    assert(text.skip(1) =~= inner + after);
    assert((inner + after)[0] == tag[1]);
    assert(trim_start(text.skip(1)) == text.skip(1));
    assert(br_rest()(text) is None) by {
        if begins_with_letters(text.skip(1), seq!['b', 'r']) {
            assert(same_letter(text.skip(1)[0], seq!['b', 'r'][0]));
            assert(same_letter(text.skip(1)[1], seq!['b', 'r'][1]));
            assert(text.skip(1)[1] == tag[2]);
        }
    }
    lemma_replaced_behind(inner, after, br_rest(), seq!['\n']);
    assert(seq!['<'] + (inner + replaced(after, br_rest(), seq!['\n'])) =~= tag + replaced(
        after,
        br_rest(),
        seq!['\n'],
    ));
}

/// A tag that closes no block is passed over when the ends of blocks are replaced.
pub proof fn lemma_inline_tag(tag: Seq<char>, after: Seq<char>)
    requires
        tag.len() > 1,
        tag[0] == '<',
        tag[1] == '/' ==> tag.len() > 2 && !white_space(tag[2]) && tag[2] != 'p' && tag[2] != 'P'
            && tag[2] != 'd' && tag[2] != 'D' && tag[2] != 'l' && tag[2] != 'L' && tag[2] != 'h'
            && tag[2] != 'H',
        !tag.skip(1).contains('<'),
    ensures
        replaced(tag + after, block_rest(), seq!['\n']) == tag + replaced(
            after,
            block_rest(),
            seq!['\n'],
        ),
{
    let text = tag + after;
    let inner = tag.skip(1);
    assert(text.skip(1) =~= inner + after);
    assert(block_rest()(text) is None) by {
        if tag[1] == '/' {
            let name = text.skip(2);
            assert(name[0] == tag[2]);
            assert(trim_start(name) == name);
            if begins_with_letters(name, seq!['p']) {
                assert(same_letter(name[0], seq!['p'][0]));
            }
            if begins_with_letters(name, seq!['d', 'i', 'v']) {
                assert(same_letter(name[0], seq!['d', 'i', 'v'][0]));
            }
            if begins_with_letters(name, seq!['l', 'i']) {
                assert(same_letter(name[0], seq!['l', 'i'][0]));
            }
            if begins_with_letters(name, seq!['h']) {
                assert(same_letter(name[0], seq!['h'][0]));
            }
        }
    }
    lemma_replaced_behind(inner, after, block_rest(), seq!['\n']);
    assert(seq!['<'] + (inner + replaced(after, block_rest(), seq!['\n'])) =~= tag + replaced(
        after,
        block_rest(),
        seq!['\n'],
    ));
}

/// Any tag is removed whole, up to its first `>`.
pub proof fn lemma_any_tag(inner: Seq<char>, after: Seq<char>)
    requires
        inner.len() > 0,
        !inner.contains('>'),
    ensures
        replaced((seq!['<'] + inner + seq!['>']) + after, tag_rest(), Seq::empty()) == replaced(
            after,
            tag_rest(),
            Seq::empty(),
        ),
{
    let text = (seq!['<'] + inner + seq!['>']) + after;
    let t = text.skip(1);
    let n = inner.len() as int;
    lemma_first_place(t, '>');
    assert(t[n] == '>');
    assert(t.contains(t[n]));
    let k = first_place(t, '>')->0;
    if k < n {
        assert(inner[k] == '>');
    }
    assert(t.skip(n + 1) =~= after);
    assert(tag_rest()(text) == Some(after));
    let none: Seq<char> = Seq::empty();
    assert(none + replaced(after, tag_rest(), none) =~= replaced(after, tag_rest(), none));
}

/// Markup that is never closed is no markup: without `>` nothing is replaced.
pub proof fn lemma_replaced_open(s: Seq<char>, rest: spec_fn(Seq<char>) -> Option<Seq<char>>, by: Seq<char>)
    requires
        !s.contains('>'),
        forall|t: Seq<char>| #[trigger] rest(t) is Some ==> t.contains('>'),
    ensures
        replaced(s, rest, by) == s,
    decreases s.len(),
{
    if s.len() > 0 {
        let tail = s.skip(1);
        assert(!tail.contains('>')) by {
            if tail.contains('>') {
                let i = choose|i: int| 0 <= i < tail.len() && tail[i] == '>';
                assert(s[i + 1] == '>');
            }
        }
        lemma_replaced_open(tail, rest, by);
        assert(seq![s[0]] + tail =~= s);
    }
}

/// What is trimmed at the start holds no character that was not there.
proof fn lemma_trim_start_contains(s: Seq<char>, c: char)
    requires
        trim_start(s).contains(c),
    ensures
        s.contains(c),
{
    lemma_trim_start(s);
    let t = trim_start(s);
    let i = choose|i: int| 0 <= i < t.len() && t[i] == c;
    assert(s[s.len() - t.len() + i] == c);
}

/// What is skipped holds no character that was not there.
proof fn lemma_skip_contains(s: Seq<char>, n: int, c: char)
    requires
        0 <= n <= s.len(),
        s.skip(n).contains(c),
    ensures
        s.contains(c),
{
    let t = s.skip(n);
    let i = choose|i: int| 0 <= i < t.len() && t[i] == c;
    assert(s[n + i] == c);
}

/// Every match of markup is closed.
pub proof fn lemma_markup_closed(s: Seq<char>)
    ensures
        br_rest()(s) is Some ==> s.contains('>'),
        block_rest()(s) is Some ==> s.contains('>'),
        tag_rest()(s) is Some ==> s.contains('>'),
{
    if br_rest()(s) is Some {
        let t = s.skip(1);
        let name = trim_start(t);
        let u = trim_start(name.skip(2));
        let v = after_optional(u, '/');
        assert(v.contains(v[0]));
        if u.len() > 0 && u[0] == '/' {
            lemma_trim_start_contains(u.skip(1), '>');
            lemma_skip_contains(u, 1, '>');
        }
        lemma_trim_start_contains(name.skip(2), '>');
        lemma_skip_contains(name, 2, '>');
        lemma_trim_start_contains(t, '>');
        lemma_skip_contains(s, 1, '>');
    }
    if block_rest()(s) is Some {
        let t = s.skip(2);
        let name = trim_start(t);
        let u = after_block_name(name)->0;
        let n = name.len() - u.len();
        assert(trim_start(u).contains(trim_start(u)[0]));
        lemma_trim_start_contains(u, '>');
        lemma_skip_contains(name, n, '>');
        lemma_trim_start_contains(t, '>');
        lemma_skip_contains(s, 2, '>');
    }
    if tag_rest()(s) is Some {
        let t = s.skip(1);
        lemma_first_place(t, '>');
        let k = first_place(t, '>')->0;
        assert(t.contains(t[k]));
        lemma_skip_contains(s, 1, '>');
    }
}

} // verus!
