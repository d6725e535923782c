//! The task record: a trimmed text and the identifier it is known by.
use vstd::prelude::*;
use crate::fingerprint::{generate_id, id_of, is_hex_char};
use crate::text::{chars_of, is_space, is_trimmed, lemma_trim_is_trimmed, trim_range, trim_seq};

verus! {

/// One entry of a list. Two records are the same task when their ids agree.
pub struct Task {
    pub text: String,
    pub id: String,
}

/// An identifier that can stand in a line's metadata: not empty, trimmed, and free of
/// the separators `,` and `|`.
pub open spec fn valid_id(id: Seq<char>) -> bool {
    &&& id.len() > 0
    &&& is_trimmed(id)
    &&& !id.contains(',')
    &&& !id.contains('|')
}

impl Task {
    /// A record is well formed when its text is trimmed and its id is valid.
    pub open spec fn wf(&self) -> bool {
        is_trimmed(self.text@) && valid_id(self.id@)
    }

    /// The record for `text`: the text trimmed, and the fingerprint of what remains.
    pub fn new(text: &str) -> (r: Task)
        ensures
            r.text@ == trim_seq(text@),
            r.id@ == id_of(trim_seq(text@)),
            r.wf(),
    {
        let v = chars_of(text);
        let (lo, hi) = trim_range(&v, 0, v.len());
        assert(v@.subrange(0, v@.len() as int) =~= text@);
        let t = text.substring_char(lo, hi);
        proof {
            lemma_trim_is_trimmed(text@);
        }
        let id = generate_id(t);
        proof {
            lemma_hex_id_valid(id@);
        }
        Task { text: t.to_owned(), id }
    }

    /// The text of this record.
    pub fn text(&self) -> (r: &str)
        ensures
            r@ == self.text@,
    {
        self.text.as_str()
    }

    /// The identifier of this record.
    pub fn id(&self) -> (r: &str)
        ensures
            r@ == self.id@,
    {
        self.id.as_str()
    }
}

/// Forty lowercase hexadecimal digits form a valid id.
pub proof fn lemma_hex_id_valid(id: Seq<char>)
    requires
        id.len() == 40,
        forall|i: int| 0 <= i < id.len() ==> is_hex_char(#[trigger] id[i]),
    ensures
        valid_id(id),
{
    assert(!is_space(id[0]) && !is_space(id[39]));
    assert(!id.contains(',')) by {
        if id.contains(',') {
            let k = choose|k: int| 0 <= k < id.len() && id[k] == ',';
            assert(is_hex_char(id[k]));
        }
    }
    assert(!id.contains('|')) by {
        if id.contains('|') {
            let k = choose|k: int| 0 <= k < id.len() && id[k] == '|';
            assert(is_hex_char(id[k]));
        }
    }
}

impl PartialEq for Task {
    fn eq(&self, other: &Task) -> (r: bool) {
        self.id == other.id
    }
}

impl vstd::std_specs::cmp::PartialEqSpecImpl for Task {
    open spec fn obeys_eq_spec() -> bool {
        true
    }

    open spec fn eq_spec(&self, other: &Task) -> bool {
        self.id@ == other.id@
    }
}

impl Eq for Task {

}

} // verus!
