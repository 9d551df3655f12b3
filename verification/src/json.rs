//! JSON values, as the pages hold them.
//!
//! Parsing and printing is the work of `serde_json`; here a value is a plain tree that the
//! rest of the library reads.

use vstd::prelude::*;

use crate::text::{is_text_le, text_eq};
use crate::text::{lemma_text_le_antisymmetric, lemma_text_le_total, lemma_text_le_transitive, text_le};

verus! {

/// A JSON number of `serde_json`. It is carried along and printed, never computed with.
#[verifier::external_type_specification]
#[verifier::external_body]
pub struct ExNumber(serde_json::Number);

/// A JSON value of `serde_json`.
#[verifier::external_type_specification]
#[verifier::external_body]
pub struct ExValue(serde_json::Value);

/// `serde_json::Number::clone` gives an equal number.
pub assume_specification[ <serde_json::Number as Clone>::clone ](n: &serde_json::Number) -> (r:
    serde_json::Number)
    ensures
        r == *n,
;

/// A JSON value.
#[derive(Debug)]
pub enum Json {
    Null,
    Bool(bool),
    Number(serde_json::Number),
    Str(String),
    Array(Vec<Json>),
    /// The members, in the order in which the object lists them.
    Object(Vec<(String, Json)>),
}

/// What a JSON value holds.
pub enum JsonView {
    Null,
    Bool(bool),
    Number(serde_json::Number),
    Str(Seq<char>),
    Array(Seq<JsonView>),
    Object(Seq<(Seq<char>, JsonView)>),
}

/// What a value holds.
pub open spec fn content_of(v: Json) -> JsonView
    decreases v,
{
    match v {
        Json::Null => JsonView::Null,
        Json::Bool(b) => JsonView::Bool(b),
        Json::Number(n) => JsonView::Number(n),
        Json::Str(s) => JsonView::Str(s@),
        Json::Array(items) => JsonView::Array(
            Seq::new(
                items@.len(),
                |i: int|
                    if 0 <= i < items@.len() {
                        content_of(items@[i])
                    } else {
                        JsonView::Null
                    },
            ),
        ),
        Json::Object(members) => JsonView::Object(
            Seq::new(
                members@.len(),
                |i: int|
                    if 0 <= i < members@.len() {
                        (members@[i].0@, content_of(members@[i].1))
                    } else {
                        (Seq::empty(), JsonView::Null)
                    },
            ),
        ),
    }
}

impl View for Json {
    type V = JsonView;

    open spec fn view(&self) -> JsonView {
        content_of(*self)
    }
}

/// The value of the first member called `key`.
pub open spec fn first_member(members: Seq<(Seq<char>, JsonView)>, key: Seq<char>) -> Option<
    JsonView,
>
    decreases members.len(),
{
    if members.len() == 0 {
        None
    } else if members[0].0 == key {
        Some(members[0].1)
    } else {
        first_member(members.skip(1), key)
    }
}

impl JsonView {
    /// The member called `key`; no value but an object has one.
    pub open spec fn member(self, key: Seq<char>) -> Option<JsonView> {
        match self {
            JsonView::Object(members) => first_member(members, key),
            _ => None,
        }
    }
}

/// The members come in the order of their keys, no key twice.
pub open spec fn increasing(members: Seq<(Seq<char>, JsonView)>) -> bool {
    forall|i: int, j: int|
        #![trigger members[i], members[j]]
        0 <= i < j < members.len() ==> text_le(members[i].0, members[j].0) && members[i].0
            != members[j].0
}

/// Every object in the value lists its members in the order of their keys, no key twice.
pub open spec fn ordered(v: JsonView) -> bool
    decreases v,
{
    match v {
        JsonView::Array(items) => forall|i: int| 0 <= i < items.len() ==> ordered(items[i]),
        JsonView::Object(members) => increasing(members) && (forall|i: int|
            0 <= i < members.len() ==> ordered(members[i].1)),
        _ => true,
    }
}

/// `members` with `m` put at its place by the order of keys, instead of a member with the
/// same key if there is one.
pub open spec fn placed(
    members: Seq<(Seq<char>, JsonView)>,
    m: (Seq<char>, JsonView),
) -> Seq<(Seq<char>, JsonView)>
    decreases members.len(),
{
    if members.len() == 0 || !text_le(m.0, members.last().0) {
        members.push(m)
    } else if members.last().0 == m.0 {
        members.drop_last().push(m)
    } else {
        placed(members.drop_last(), m).push(members.last())
    }
}

/// The members in the order of their keys; of those with the same key the last.
pub open spec fn arranged(members: Seq<(Seq<char>, JsonView)>) -> Seq<(Seq<char>, JsonView)>
    decreases members.len(),
{
    if members.len() == 0 {
        Seq::empty()
    } else {
        placed(arranged(members.drop_last()), members.last())
    }
}

/// The value with the members of every object arranged.
pub open spec fn canonical(v: JsonView) -> JsonView
    decreases v,
{
    match v {
        JsonView::Array(items) => JsonView::Array(
            Seq::new(
                items.len(),
                |i: int|
                    if 0 <= i < items.len() {
                        canonical(items[i])
                    } else {
                        JsonView::Null
                    },
            ),
        ),
        JsonView::Object(members) => JsonView::Object(arranged(canonical_members(members))),
        _ => v,
    }
}

/// The members with their values in canonical form.
pub open spec fn canonical_members(members: Seq<(Seq<char>, JsonView)>) -> Seq<
    (Seq<char>, JsonView),
>
    decreases members,
{
    Seq::new(
        members.len(),
        |i: int|
            if 0 <= i < members.len() {
                (members[i].0, canonical(members[i].1))
            } else {
                (Seq::empty(), JsonView::Null)
            },
    )
}

/// Placing a member keeps the order of keys.
proof fn lemma_placed_increasing(
    members: Seq<(Seq<char>, JsonView)>,
    m: (Seq<char>, JsonView),
)
    requires
        increasing(members),
    ensures
        increasing(placed(members, m)),
        forall|i: int|
            0 <= i < placed(members, m).len() ==> (#[trigger] placed(members, m)[i]).0 == m.0
                || exists|j: int| 0 <= j < members.len() && members[j].0 == placed(members, m)[i].0,
    decreases members.len(),
{
    if members.len() == 0 || !text_le(m.0, members.last().0) {
        assert forall|i: int| 0 <= i < members.len() implies text_le(members[i].0, m.0)
            && members[i].0 != m.0 by {
            let last = members.last().0;
            lemma_text_le_total(m.0, last);
            if i < members.len() - 1 {
                lemma_text_le_transitive(members[i].0, last, m.0);
            }
            lemma_text_le_total(m.0, m.0);
            if members[i].0 == m.0 {
                lemma_text_le_total(last, last);
                if i < members.len() - 1 {
                    assert(text_le(m.0, last));
                }
            }
        }
    } else if members.last().0 == m.0 {
    } else {
        let init = members.drop_last();
        assert(increasing(init));
        lemma_placed_increasing(init, m);
        let p = placed(init, m);
        assert forall|i: int| 0 <= i < p.len() implies text_le(p[i].0, members.last().0) && p[i].0
            != members.last().0 by {
            if p[i].0 != m.0 {
                let j = choose|j: int| 0 <= j < init.len() && init[j].0 == p[i].0;
                assert(members[j] == init[j]);
            }
        }
        assert forall|i: int| 0 <= i < placed(members, m).len() implies (#[trigger] placed(
            members,
            m,
        )[i]).0 == m.0 || exists|j: int|
            0 <= j < members.len() && members[j].0 == placed(members, m)[i].0 by {
            if i < p.len() {
                assert(placed(members, m)[i] == p[i]);
                if p[i].0 != m.0 {
                    let j = choose|j: int| 0 <= j < init.len() && init[j].0 == p[i].0;
                    assert(members[j].0 == p[i].0);
                }
            } else {
                assert(members[members.len() - 1].0 == placed(members, m)[i].0);
            }
        }
    }
}

/// Members that are in order already are arranged as they are.
proof fn lemma_arranged_ordered(members: Seq<(Seq<char>, JsonView)>)
    requires
        increasing(members),
    ensures
        arranged(members) == members,
    decreases members.len(),
{
    if members.len() > 0 {
        let init = members.drop_last();
        assert(increasing(init));
        lemma_arranged_ordered(init);
        if init.len() > 0 {
            let before = init.last().0;
            assert(text_le(members[members.len() - 2].0, members[members.len() - 1].0));
            if text_le(members.last().0, before) {
                lemma_text_le_antisymmetric(members.last().0, before);
            }
        }
        assert(init.push(members.last()) =~= members);
    } else {
        assert(arranged(members) =~= members);
    }
}

/// A value whose objects are in order is its own canonical form.
pub proof fn lemma_canonical_ordered(v: JsonView)
    requires
        ordered(v),
    ensures
        canonical(v) == v,
    decreases v,
{
    match v {
        JsonView::Array(items) => {
            assert forall|i: int| 0 <= i < items.len() implies canonical(items[i]) == items[i] by {
                lemma_canonical_ordered(items[i]);
            }
            assert(canonical(v)->Array_0 =~= items);
            assert(canonical(v) is Array);
        },
        JsonView::Object(members) => {
            assert forall|i: int| 0 <= i < members.len() implies canonical(members[i].1)
                == members[i].1 by {
                lemma_canonical_ordered(members[i].1);
            }
            assert(canonical_members(members) =~= members);
            lemma_arranged_ordered(members);
        },
        _ => {},
    }
}

/// What an optional value holds.
pub open spec fn opt_view(v: Option<&Json>) -> Option<JsonView> {
    match v {
        Some(v) => Some(v@),
        None => None,
    }
}

/// What an optional value holds.
pub open spec fn owned_view(v: Option<Json>) -> Option<JsonView> {
    match v {
        Some(v) => Some(v@),
        None => None,
    }
}

/// What a list of values holds.
pub open spec fn json_views(v: Seq<Json>) -> Seq<JsonView> {
    Seq::new(v.len(), |i: int| v[i]@)
}

/// An equal optional value.
pub fn copy_json(v: Option<&Json>) -> (r: Option<Json>)
    ensures
        owned_view(r) == opt_view(v),
{
    match v {
        Some(v) => Some(v.clone()),
        None => None,
    }
}

impl Json {
    /// The member called `key` of an object; `None` if there is none or `self` is no object.
    pub fn get(&self, key: &str) -> (r: Option<&Json>)
        ensures
            opt_view(r) == self@.member(key@),
    {
        match self {
            Json::Object(members) => {
                let ghost all = self@->Object_0;
                assert(all.skip(0) =~= all);
                for i in 0..members.len()
                    invariant
                        self@ == JsonView::Object(all),
                        all.len() == members.len(),
                        forall|j: int| 0 <= j < members.len() ==> #[trigger] all[j] == (members@[j].0@, members@[j].1@),
                        first_member(all, key@) == first_member(all.skip(i as int), key@),
                {
                    assert(all.skip(i as int)[0] == all[i as int]);
                    if text_eq(members[i].0.as_str(), key) {
                        return Some(&members[i].1);
                    }
                    assert(all.skip(i as int).skip(1) =~= all.skip(i + 1));
                }
                None
            },
            _ => None,
        }
    }

    /// The items of an array; `None` if `self` is no array.
    pub fn as_array(&self) -> (r: Option<&Vec<Json>>)
        ensures
            match r {
                Some(items) => self@ == JsonView::Array(json_views(items@)),
                None => !(self@ is Array),
            },
    {
        match self {
            Json::Array(items) => {
                assert(self@->Array_0 =~= json_views(items@));
                Some(items)
            },
            _ => None,
        }
    }

    /// Whether the value is an object.
    pub fn is_object(&self) -> (r: bool)
        ensures
            r == (self@ is Object),
    {
        match self {
            Json::Object(_) => true,
            _ => false,
        }
    }
}

impl Clone for Json {
    /// An equal value.
    fn clone(&self) -> (r: Self)
        ensures
            r@ == self@,
        decreases self,
    {
        match self {
            Json::Null => Json::Null,
            Json::Bool(b) => Json::Bool(*b),
            Json::Number(n) => Json::Number(n.clone()),
            Json::Str(s) => Json::Str(s.clone()),
            Json::Array(items) => {
                let mut out: Vec<Json> = Vec::new();
                for i in 0..items.len()
                    invariant
                        decreases_to!(self => items@),
                        out@.len() == i,
                        forall|j: int| 0 <= j < i ==> (#[trigger] out@[j])@ == items@[j]@,
                {
                    out.push(items[i].clone());
                }
                let r = Json::Array(out);
                assert(r@->Array_0 =~= self@->Array_0);
                r
            },
            Json::Object(members) => {
                let mut out: Vec<(String, Json)> = Vec::new();
                for i in 0..members.len()
                    invariant
                        decreases_to!(self => members@),
                        out@.len() == i,
                        forall|j: int|
                            0 <= j < i ==> (#[trigger] out@[j]).0@ == members@[j].0@ && out@[j].1@
                                == members@[j].1@,
                {
                    out.push((members[i].0.clone(), members[i].1.clone()));
                }
                let r = Json::Object(out);
                assert(r@->Object_0 =~= self@->Object_0);
                r
            },
        }
    }
}

/// One level of a value of `serde_json`.
pub enum JsonNode {
    Null,
    Bool(bool),
    Number(serde_json::Number),
    Str(String),
    Array(Vec<serde_json::Value>),
    Object(Vec<(String, serde_json::Value)>),
}

/// What a value of `serde_json` holds: its arrays and objects with all that is below them.
pub uninterp spec fn value_content(v: serde_json::Value) -> JsonView;

impl JsonNode {
    /// What the value holds of which this is the top level.
    pub open spec fn content(self) -> JsonView {
        match self {
            JsonNode::Null => JsonView::Null,
            JsonNode::Bool(b) => JsonView::Bool(b),
            JsonNode::Number(n) => JsonView::Number(n),
            JsonNode::Str(s) => JsonView::Str(s@),
            JsonNode::Array(items) => JsonView::Array(
                Seq::new(items@.len(), |i: int| value_content(items@[i])),
            ),
            JsonNode::Object(members) => JsonView::Object(
                Seq::new(members@.len(), |i: int| (members@[i].0@, value_content(members@[i].1))),
            ),
        }
    }
}

/// Takes the top level of a `serde_json::Value` apart: the variant and its fields. The
/// members of an object come out of `serde_json::Map::into_iter`, a sorted map's iterator:
/// in the order of their keys, no key twice.
#[verifier::external_body]
fn open_value(v: serde_json::Value) -> (r: JsonNode)
    ensures
        r.content() == value_content(v),
        r is Object ==> increasing(r.content()->Object_0),
{
    match v {
        serde_json::Value::Null => JsonNode::Null,
        serde_json::Value::Bool(b) => JsonNode::Bool(b),
        serde_json::Value::Number(n) => JsonNode::Number(n),
        serde_json::Value::String(s) => JsonNode::Str(s),
        serde_json::Value::Array(items) => JsonNode::Array(items),
        serde_json::Value::Object(members) => JsonNode::Object(members.into_iter().collect()),
    }
}

/// The value that `v` is in `serde_json`.
fn from_value(v: serde_json::Value) -> (r: Json)
    ensures
        r@ == value_content(v),
        ordered(r@),
    decreases value_content(v),
{
    let ghost content = value_content(v);
    match open_value(v) {
        JsonNode::Null => Json::Null,
        JsonNode::Bool(b) => Json::Bool(b),
        JsonNode::Number(n) => Json::Number(n),
        JsonNode::Str(s) => Json::Str(s),
        JsonNode::Array(items) => {
            let mut out: Vec<Json> = Vec::new();
            for item in it: items
                invariant
                    it.seq() == items@,
                    content == JsonNode::Array(items).content(),
                    content == value_content(v),
                    out@.len() == it.index(),
                    forall|i: int|
                        0 <= i < out@.len() ==> (#[trigger] out@[i])@ == value_content(items@[i])
                            && ordered(out@[i]@),
            {
                assert(decreases_to!(content->Array_0 => content->Array_0[it.index()]));
                out.push(from_value(item));
            }
            let r = Json::Array(out);
            assert(r@->Array_0 =~= content->Array_0);
            assert forall|i: int| 0 <= i < content->Array_0.len() implies ordered(
                content->Array_0[i],
            ) by {
                assert(out@[i]@ == content->Array_0[i]);
            }
            r
        },
        JsonNode::Object(members) => {
            let mut out: Vec<(String, Json)> = Vec::new();
            for member in it: members
                invariant
                    it.seq() == members@,
                    content == JsonNode::Object(members).content(),
                    content == value_content(v),
                    out@.len() == it.index(),
                    forall|i: int|
                        0 <= i < out@.len() ==> (#[trigger] out@[i]).0@ == members@[i].0@
                            && out@[i].1@ == value_content(members@[i].1) && ordered(out@[i].1@),
            {
                assert(decreases_to!(content->Object_0 => content->Object_0[it.index()]));
                assert(decreases_to!(content->Object_0[it.index()] => content->Object_0[it.index()].1));
                let (key, value) = member;
                out.push((key, from_value(value)));
            }
            let r = Json::Object(out);
            assert(r@->Object_0 =~= content->Object_0);
            assert forall|i: int| 0 <= i < content->Object_0.len() implies ordered(
                content->Object_0[i].1,
            ) by {
                assert(out@[i].1@ == content->Object_0[i].1);
            }
            r
        },
    }
}

/// `serde_json::from_str`: the value that a JSON text stands for, or what its error says.
pub uninterp spec fn json_parsed(text: Seq<char>) -> Result<JsonView, Seq<char>>;

/// The white space of JSON.
pub open spec fn json_space(c: char) -> bool {
    c == ' ' || c == '\n' || c == '\t' || c == '\r'
}

/// Nothing but the white space of JSON.
pub open spec fn json_blank(s: Seq<char>) -> bool {
    forall|i: int| 0 <= i < s.len() ==> json_space(#[trigger] s[i])
}

/// The text is in braces, the opening one at `a`, the closing one at `b`, but for white space
/// around them.
pub open spec fn braced_at(text: Seq<char>, a: int, b: int) -> bool {
    &&& 0 <= a < b < text.len()
    &&& text[a] == '{'
    &&& text[b] == '}'
    &&& json_blank(text.take(a))
    &&& json_blank(text.skip(b + 1))
}

/// The text is in braces, but for white space around them.
pub open spec fn braced(text: Seq<char>) -> bool {
    exists|a: int, b: int| braced_at(text, a, b)
}

/// What comes of parsing `text`, that is `value` or an error, comes of it with white space
/// around it too, but for what the error says.
pub open spec fn spacing_ignored(text: Seq<char>, value: Option<JsonView>) -> bool {
    forall|lead: Seq<char>, trail: Seq<char>|
        json_blank(lead) && json_blank(trail) ==> match value {
            Some(v) => #[trigger] json_parsed(lead + text + trail) == Ok::<JsonView, Seq<char>>(v),
            None => json_parsed(lead + text + trail) is Err,
        }
}

/// Calls `serde_json::from_str`. What it gives, the value or the text of the error, is a
/// function of `text` alone. An accepted text is not empty, and it is in braces if and only if
/// it stands for an object. White space around the text changes neither whether it is accepted
/// nor the value.
#[verifier::external_body]
fn value_from_text(text: &str) -> (r: Result<serde_json::Value, String>)
    ensures
        match r {
            Ok(v) => {
                &&& json_parsed(text@) == Ok::<JsonView, Seq<char>>(value_content(v))
                &&& text@.len() > 0
                &&& value_content(v) is Object <==> braced(text@)
                &&& spacing_ignored(text@, Some(value_content(v)))
            },
            Err(e) => {
                &&& json_parsed(text@) == Err::<JsonView, Seq<char>>(e@)
                &&& spacing_ignored(text@, None)
            },
        },
{
    serde_json::from_str(text).map_err(|e: serde_json::Error| e.to_string())
}

/// Parses a JSON text; the error is what `serde_json` has to say about it. An object, and
/// nothing else, is written in braces; white space around the text makes no difference.
pub fn parse_json(text: &str) -> (r: Result<Json, String>)
    ensures
        match r {
            Ok(v) => {
                &&& json_parsed(text@) == Ok::<JsonView, Seq<char>>(v@)
                &&& ordered(v@)
                &&& text@.len() > 0
                &&& v@ is Object <==> braced(text@)
                &&& spacing_ignored(text@, Some(v@))
            },
            Err(e) => {
                &&& json_parsed(text@) == Err::<JsonView, Seq<char>>(e@)
                &&& spacing_ignored(text@, None)
            },
        },
{
    match value_from_text(text) {
        Ok(v) => Ok(from_value(v)),
        Err(e) => Err(e),
    }
}

/// Builds the `serde_json::Value` with the given top level, by its variant. The members of
/// an object are collected in a `serde_json::Map`, a sorted map, so they have to come in the
/// order of their keys, no key twice.
#[verifier::external_body]
fn close_value(node: JsonNode) -> (r: serde_json::Value)
    requires
        node is Object ==> increasing(node.content()->Object_0),
    ensures
        value_content(r) == node.content(),
{
    match node {
        JsonNode::Null => serde_json::Value::Null,
        JsonNode::Bool(b) => serde_json::Value::Bool(b),
        JsonNode::Number(n) => serde_json::Value::Number(n),
        JsonNode::Str(s) => serde_json::Value::String(s),
        JsonNode::Array(items) => serde_json::Value::Array(items),
        JsonNode::Object(members) => serde_json::Value::Object(members.into_iter().collect()),
    }
}

/// What a list of members of `serde_json` holds.
pub open spec fn members_content(members: Seq<(String, serde_json::Value)>) -> Seq<
    (Seq<char>, JsonView),
> {
    Seq::new(members.len(), |i: int| (members[i].0@, value_content(members[i].1)))
}

/// Puts a member at its place by the order of keys.
fn place_member(members: &mut Vec<(String, serde_json::Value)>, key: String, value: serde_json::Value)
    ensures
        members_content(final(members)@) == placed(
            members_content(old(members)@),
            (key@, value_content(value)),
        ),
{
    let ghost all = members_content(members@);
    let ghost m = (key@, value_content(value));
    let mut pos: usize = members.len();
    assert(all.take(pos as int) =~= all);
    assert(all.skip(pos as int) =~= Seq::empty());
    assert(placed(all, m) =~= placed(all.take(pos as int), m) + all.skip(pos as int));
    while pos > 0
        invariant
            pos <= members.len(),
            all == members_content(members@),
            m == (key@, value_content(value)),
            placed(all, m) == placed(all.take(pos as int), m) + all.skip(pos as int),
        ensures
            pos <= members.len(),
            placed(all, m) == placed(all.take(pos as int), m) + all.skip(pos as int),
            pos == 0 || !text_le(m.0, all[pos - 1].0) || m.0 == all[pos - 1].0,
        decreases pos,
    {
        let ghost before = all.take(pos as int);
        assert(before.last() == all[pos - 1]);
        if !is_text_le(key.as_str(), members[pos - 1].0.as_str()) {
            break;
        }
        if text_eq(key.as_str(), members[pos - 1].0.as_str()) {
            break;
        }
        assert(before.drop_last() =~= all.take(pos - 1));
        assert(placed(before.drop_last(), m).push(before.last()) + all.skip(pos as int)
            =~= placed(all.take(pos - 1), m) + all.skip(pos - 1));
        pos -= 1;
    }
    let ghost before = all.take(pos as int);
    if pos > 0 && text_eq(key.as_str(), members[pos - 1].0.as_str()) {
        proof {
            lemma_text_le_total(m.0, m.0);
            assert(before.last() == all[pos - 1]);
            assert(before.drop_last().push(m) + all.skip(pos as int) =~= all.update(pos - 1, m));
        }
        members.set(pos - 1, (key, value));
        assert(members_content(members@) =~= all.update(pos - 1, m));
    } else {
        proof {
            if pos > 0 {
                assert(before.last() == all[pos - 1]);
            }
            assert(before.push(m) + all.skip(pos as int) =~= all.insert(pos as int, m));
        }
        members.insert(pos, (key, value));
        assert(members_content(members@) =~= all.insert(pos as int, m));
    }
}

/// The value of `serde_json` that holds what `v` holds.
fn to_value(v: &Json) -> (r: serde_json::Value)
    ensures
        value_content(r) == canonical(v@),
    decreases v,
{
    match v {
        Json::Null => close_value(JsonNode::Null),
        Json::Bool(b) => close_value(JsonNode::Bool(*b)),
        Json::Number(n) => close_value(JsonNode::Number(n.clone())),
        Json::Str(s) => close_value(JsonNode::Str(s.clone())),
        Json::Array(items) => {
            let mut out: Vec<serde_json::Value> = Vec::new();
            for i in 0..items.len()
                invariant
                    decreases_to!(v => items@),
                    out@.len() == i,
                    forall|j: int|
                        0 <= j < i ==> value_content(#[trigger] out@[j]) == canonical(items@[j]@),
            {
                out.push(to_value(&items[i]));
            }
            let node = JsonNode::Array(out);
            assert(node.content()->Array_0 =~= canonical(v@)->Array_0);
            assert(canonical(v@) is Array);
            close_value(node)
        },
        Json::Object(members) => {
            let mut out: Vec<(String, serde_json::Value)> = Vec::new();
            let ghost inner = Seq::new(
                members@.len(),
                |i: int| (members@[i].0@, canonical(members@[i].1@)),
            );
            assert(arranged(inner.take(0)) =~= members_content(out@));
            for i in 0..members.len()
                invariant
                    decreases_to!(v => members@),
                    inner == Seq::new(
                        members@.len(),
                        |i: int| (members@[i].0@, canonical(members@[i].1@)),
                    ),
                    members_content(out@) == arranged(inner.take(i as int)),
                    increasing(members_content(out@)),
            {
                proof {
                    lemma_placed_increasing(members_content(out@), inner[i as int]);
                    assert(inner.take(i + 1).drop_last() =~= inner.take(i as int));
                }
                let value = to_value(&members[i].1);
                place_member(&mut out, members[i].0.clone(), value);
            }
            let node = JsonNode::Object(out);
            proof {
                assert(inner.take(inner.len() as int) =~= inner);
                assert(inner =~= canonical_members(v@->Object_0));
                assert(node.content()->Object_0 =~= members_content(out@));
            }
            close_value(node)
        },
    }
}

/// The compact JSON text of a value, as `serde_json::Value` displays it.
pub uninterp spec fn json_text(v: JsonView) -> Seq<char>;

/// Displays a `serde_json::Value` (`to_string`): compact JSON text, a function of what the
/// value holds. The three literals display as their names.
#[verifier::external_body]
fn value_text(v: &serde_json::Value) -> (r: String)
    ensures
        r@ == json_text(value_content(*v)),
        value_content(*v) == JsonView::Null ==> r@ == "null"@,
        value_content(*v) == JsonView::Bool(true) ==> r@ == "true"@,
        value_content(*v) == JsonView::Bool(false) ==> r@ == "false"@,
{
    v.to_string()
}

/// The compact JSON text of a value, the members of its objects arranged.
pub open spec fn printed(v: JsonView) -> Seq<char> {
    json_text(canonical(v))
}

/// The compact JSON text of `v`.
pub fn print_json(v: &Json) -> (r: String)
    ensures
        r@ == printed(v@),
        v@ == JsonView::Null ==> r@ == "null"@,
        v@ == JsonView::Bool(true) ==> r@ == "true"@,
        v@ == JsonView::Bool(false) ==> r@ == "false"@,
{
    value_text(&to_value(v))
}

/// The member called `key` is the first of that name; without such a name there is none, nor
/// has any other value one.
pub proof fn lemma_member(
    before: Seq<(Seq<char>, JsonView)>,
    key: Seq<char>,
    value: JsonView,
    after: Seq<(Seq<char>, JsonView)>,
    other: JsonView,
)
    requires
        forall|i: int| 0 <= i < before.len() ==> (#[trigger] before[i]).0 != key,
    ensures
        JsonView::Object(before).member(key) is None,
        JsonView::Object(before + seq![(key, value)] + after).member(key) == Some(value),
        !(other is Object) ==> other.member(key) is None,
    decreases before.len(),
{
    let all = before + seq![(key, value)] + after;
    if before.len() > 0 {
        assert(all[0] == before[0]);
        let rest = before.skip(1);
        assert forall|i: int| 0 <= i < rest.len() implies (#[trigger] rest[i]).0 != key by {
            assert(rest[i] == before[i + 1]);
        }
        assert(all.skip(1) =~= rest + seq![(key, value)] + after);
        lemma_member(rest, key, value, after, other);
    } else {
        assert(all[0] == (key, value));
    }
}

/// Of a value as it is parsed the JSON text is printed as `serde_json` does it.
pub proof fn lemma_printed(v: JsonView)
    requires
        ordered(v),
    ensures
        printed(v) == json_text(v),
{
    lemma_canonical_ordered(v);
}

/// Arranged members are in order, and every key has the value that was given last.
pub proof fn lemma_arranged(
    members: Seq<(Seq<char>, JsonView)>,
    key: Seq<char>,
    value: JsonView,
)
    ensures
        increasing(arranged(members)),
        first_member(arranged(members.push((key, value))), key) == Some(value),
        forall|other: Seq<char>|
            other != key ==> #[trigger] first_member(
                arranged(members.push((key, value))),
                other,
            ) == first_member(arranged(members), other),
{
    lemma_arranged_increasing(members);
    assert(members.push((key, value)).drop_last() =~= members);
    let m = (key, value);
    let before = arranged(members);
    lemma_placed_members(before, m, key);
    assert forall|other: Seq<char>| other != key implies #[trigger] first_member(
        arranged(members.push((key, value))),
        other,
    ) == first_member(before, other) by {
        lemma_placed_members(before, m, other);
    }
}

/// Arranged members are in order.
proof fn lemma_arranged_increasing(members: Seq<(Seq<char>, JsonView)>)
    ensures
        increasing(arranged(members)),
    decreases members.len(),
{
    if members.len() > 0 {
        lemma_arranged_increasing(members.drop_last());
        lemma_placed_increasing(arranged(members.drop_last()), members.last());
    }
}

/// One member more at the end is found if no other is.
proof fn lemma_first_member_push(
    members: Seq<(Seq<char>, JsonView)>,
    m: (Seq<char>, JsonView),
    key: Seq<char>,
)
    ensures
        first_member(members.push(m), key) == match first_member(members, key) {
            Some(v) => Some(v),
            None => if m.0 == key {
                Some(m.1)
            } else {
                None
            },
        },
    decreases members.len(),
{
    let all = members.push(m);
    if members.len() > 0 {
        assert(all[0] == members[0]);
        assert(all.skip(1) =~= members.skip(1).push(m));
        lemma_first_member_push(members.skip(1), m, key);
    } else {
        assert(all.skip(1) =~= members);
    }
}

/// A key that is not there is not found.
proof fn lemma_first_member_absent(members: Seq<(Seq<char>, JsonView)>, key: Seq<char>)
    requires
        forall|i: int| 0 <= i < members.len() ==> (#[trigger] members[i]).0 != key,
    ensures
        first_member(members, key) is None,
    decreases members.len(),
{
    if members.len() > 0 {
        let rest = members.skip(1);
        assert forall|i: int| 0 <= i < rest.len() implies (#[trigger] rest[i]).0 != key by {
            assert(rest[i] == members[i + 1]);
        }
        lemma_first_member_absent(rest, key);
    }
}

/// Placing a member gives its key its value and leaves the others.
proof fn lemma_placed_members(
    members: Seq<(Seq<char>, JsonView)>,
    m: (Seq<char>, JsonView),
    key: Seq<char>,
)
    requires
        increasing(members),
    ensures
        first_member(placed(members, m), key) == if key == m.0 {
            Some(m.1)
        } else {
            first_member(members, key)
        },
    decreases members.len(),
{
    if members.len() == 0 || !text_le(m.0, members.last().0) {
        lemma_first_member_push(members, m, key);
        if key == m.0 {
            lemma_placed_increasing(members, m);
            let all = placed(members, m);
            assert forall|i: int| 0 <= i < members.len() implies (#[trigger] members[i]).0 != key by {
                assert(all[i] == members[i] && all[members.len() as int] == m);
            }
            lemma_first_member_absent(members, key);
        }
    } else {
        let init = members.drop_last();
        let last = members.last();
        assert(increasing(init));
        assert(init.push(last) =~= members);
        lemma_first_member_push(init, last, key);
        if last.0 == m.0 {
            lemma_first_member_push(init, m, key);
            if key == m.0 {
                assert forall|i: int| 0 <= i < init.len() implies (#[trigger] init[i]).0 != key by {
                    assert(init[i] == members[i] && members[members.len() - 1] == last);
                }
                lemma_first_member_absent(init, key);
            }
        } else {
            lemma_placed_members(init, m, key);
            lemma_first_member_push(placed(init, m), last, key);
        }
    }
}

/// What a value holds is what stands in it.
pub proof fn lemma_json_view(
    b: bool,
    n: serde_json::Number,
    s: String,
    items: Vec<Json>,
    members: Vec<(String, Json)>,
    i: int,
)
    ensures
        Json::Null@ == JsonView::Null,
        Json::Bool(b)@ == JsonView::Bool(b),
        Json::Number(n)@ == JsonView::Number(n),
        Json::Str(s)@ == JsonView::Str(s@),
        Json::Array(items)@ == JsonView::Array(json_views(items@)),
        json_views(items@).len() == items@.len(),
        0 <= i < items@.len() ==> json_views(items@)[i] == items@[i]@,
        Json::Object(members)@ is Object,
        Json::Object(members)@->Object_0.len() == members@.len(),
        0 <= i < members@.len() ==> Json::Object(members)@->Object_0[i] == (
            members@[i].0@,
            members@[i].1@,
        ),
{
    assert(Json::Array(items)@->Array_0 =~= json_views(items@));
}

/// In a value in order, of two members of an object the one that comes first has the lesser
/// key, and all that it holds is in order too.
pub proof fn lemma_ordered(
    members: Seq<(Seq<char>, JsonView)>,
    items: Seq<JsonView>,
    i: int,
    j: int,
)
    ensures
        ordered(JsonView::Object(members)) && 0 <= i < j < members.len() ==> text_le(
            members[i].0,
            members[j].0,
        ) && members[i].0 != members[j].0,
        ordered(JsonView::Object(members)) && 0 <= i < members.len() ==> ordered(members[i].1),
        ordered(JsonView::Array(items)) && 0 <= i < items.len() ==> ordered(items[i]),
{
    if ordered(JsonView::Object(members)) {
        assert(increasing(members));
    }
    let v = JsonView::Array(items);
    if ordered(v) && 0 <= i < items.len() {
        lemma_ordered_items(v, i);
    }
}

/// An optional value holds what the value holds.
pub proof fn lemma_optional_views(v: &Json, w: Json)
    ensures
        opt_view(Some(v)) == Some(v@),
        opt_view(None) is None,
        owned_view(Some(w)) == Some(w@),
        owned_view(None) is None,
{
}

/// The items of an array in order are in order.
proof fn lemma_ordered_items(v: JsonView, i: int)
    requires
        ordered(v),
        v is Array,
        0 <= i < v->Array_0.len(),
    ensures
        ordered(v->Array_0[i]),
{
    match v {
        JsonView::Array(items) => {
            assert(ordered(items[i]));
        },
        _ => {},
    }
}

} // verus!
