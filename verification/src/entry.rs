//! One extracted question.

use vstd::prelude::*;

use crate::json::{copy_json, owned_view, Json, JsonView};
use crate::text::{copy_texts, texts};

verus! {

/// A question with its reference answers.
#[derive(Debug)]
pub struct Entry {
    pub question_id: String,
    pub question_text: String,
    pub answers: Vec<String>,
    pub analysis: String,
    pub source_file: String,
    pub question_type: Option<Json>,
    pub qtype_id: Option<Json>,
}

/// What an entry holds.
#[verifier::ext_equal]
pub struct EntryView {
    pub question_id: Seq<char>,
    pub question_text: Seq<char>,
    pub answers: Seq<Seq<char>>,
    pub analysis: Seq<char>,
    pub source_file: Seq<char>,
    pub question_type: Option<JsonView>,
    pub qtype_id: Option<JsonView>,
}

impl View for Entry {
    type V = EntryView;

    open spec fn view(&self) -> EntryView {
        EntryView {
            question_id: self.question_id@,
            question_text: self.question_text@,
            answers: texts(self.answers@),
            analysis: self.analysis@,
            source_file: self.source_file@,
            question_type: owned_view(self.question_type),
            qtype_id: owned_view(self.qtype_id),
        }
    }
}

/// What a list of entries holds.
pub open spec fn entry_views(entries: Seq<Entry>) -> Seq<EntryView> {
    Seq::new(entries.len(), |i: int| entries[i]@)
}

impl Clone for Entry {
    /// An equal entry.
    fn clone(&self) -> (r: Self)
        ensures
            r@ == self@,
    {
        Entry {
            question_id: self.question_id.clone(),
            question_text: self.question_text.clone(),
            answers: copy_texts(&self.answers),
            analysis: self.analysis.clone(),
            source_file: self.source_file.clone(),
            question_type: copy_json(self.question_type.as_ref()),
            qtype_id: copy_json(self.qtype_id.as_ref()),
        }
    }
}

/// What an entry holds is what its fields hold.
pub proof fn lemma_entry_view(e: Entry)
    ensures
        e@.question_id == e.question_id@,
        e@.question_text == e.question_text@,
        e@.answers == texts(e.answers@),
        e@.analysis == e.analysis@,
        e@.source_file == e.source_file@,
        e.question_type matches Some(v) ==> e@.question_type == Some(v@),
        e.question_type is None ==> e@.question_type is None,
        e.qtype_id matches Some(v) ==> e@.qtype_id == Some(v@),
        e.qtype_id is None ==> e@.qtype_id is None,
{
}

/// A list of entries holds what each of them holds, in their order.
pub proof fn lemma_entry_views(entries: Seq<Entry>, i: int)
    ensures
        entry_views(entries).len() == entries.len(),
        0 <= i < entries.len() ==> entry_views(entries)[i] == entries[i]@,
{
}

} // verus!
