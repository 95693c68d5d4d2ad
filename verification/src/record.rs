//! Match records and the order in which a report lists them.

use crate::order::{bytes_lt, lemma_lex_le_antisymmetric, lex_lt};
use vstd::prelude::*;
use vstd::string::*;
use vstd::utf8::*;

verus! {

/// One matching line: where it was found and what it holds.
#[derive(Debug)]
pub struct MatchRecord {
    pub file_path: String,
    pub line_number: usize,
    pub content: String,
}

/// The mathematical value of a [`MatchRecord`].
pub struct RecordView {
    pub file_path: Seq<char>,
    pub line_number: nat,
    pub content: Seq<char>,
}

impl View for MatchRecord {
    type V = RecordView;

    open spec fn view(&self) -> RecordView {
        RecordView {
            file_path: self.file_path@,
            line_number: self.line_number as nat,
            content: self.content@,
        }
    }
}

/// The views of a vector of records, in order.
pub open spec fn views(records: Seq<MatchRecord>) -> Seq<RecordView> {
    records.map_values(|r: MatchRecord| r@)
}

/// The key by which paths are ordered: their UTF-8 bytes.
pub open spec fn path_key(path: Seq<char>) -> Seq<u8> {
    encode_utf8(path)
}

/// `a` is listed strictly before `b`.
pub open spec fn path_lt(a: Seq<char>, b: Seq<char>) -> bool {
    lex_lt(path_key(a), path_key(b))
}

/// `a` is listed no later than `b`.
pub open spec fn path_le(a: Seq<char>, b: Seq<char>) -> bool {
    !path_lt(b, a)
}

/// Paths with the same key are the same path.
pub proof fn lemma_path_key_injective(a: Seq<char>, b: Seq<char>)
    requires
        path_key(a) == path_key(b),
    ensures
        a == b,
{
    encode_utf8_decode_utf8(a);
    encode_utf8_decode_utf8(b);
}

/// Two paths that precede each other non-strictly are the same path.
pub proof fn lemma_path_le_antisymmetric(a: Seq<char>, b: Seq<char>)
    requires
        path_le(a, b),
        path_le(b, a),
    ensures
        a == b,
{
    lemma_lex_le_antisymmetric(path_key(a), path_key(b));
    lemma_path_key_injective(a, b);
}

/// Decides whether the path `a` is listed strictly before the path `b`.
pub fn path_precedes(a: &str, b: &str) -> (r: bool)
    ensures
        r == path_lt(a@, b@),
{
    bytes_lt(a.as_bytes(), b.as_bytes())
}

impl MatchRecord {
    /// A record for line `line_number` of `file_path`.
    pub fn new(file_path: String, line_number: usize, content: String) -> (r: MatchRecord)
        ensures
            r.file_path == file_path,
            r.line_number == line_number,
            r.content == content,
    {
        MatchRecord { file_path, line_number, content }
    }
}

} // verus!
