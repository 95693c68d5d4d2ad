//! Results of parallel downloads: the message of each finished task and the
//! order in which the messages are listed.

use crate::order::{bytes_lt, lemma_lex_asymmetric, lemma_lex_le_transitive, lex_le, lex_lt};
use vstd::multiset::Multiset;
use vstd::prelude::*;
use vstd::seq_lib::{to_multiset_build, to_multiset_insert};
use vstd::string::*;
use vstd::utf8::*;

verus! {

/// The message of a finished download: the address and a note that the
/// download is complete.
pub open spec fn completion_text(url: Seq<char>) -> Seq<char> {
    url + " 下载完成"@
}

/// Writes the message of a finished download.
pub fn completion_message(url: &str) -> (message: String)
    ensures
        message@ == completion_text(url@),
{
    let mut message = url.to_owned();
    message.append(" 下载完成");
    message
}

/// The texts of a vector of strings, in order.
pub open spec fn message_texts(messages: Seq<String>) -> Seq<Seq<char>> {
    messages.map_values(|m: String| m@)
}

/// The texts stand in byte order, equal texts side by side.
pub open spec fn in_byte_order(texts: Seq<Seq<char>>) -> bool {
    forall|i: int, j: int|
        0 <= i < j < texts.len() ==> lex_le(
            encode_utf8(#[trigger] texts[i]),
            encode_utf8(#[trigger] texts[j]),
        )
}

/// Puts a message at its place in an ordered list.
fn insert_message(list: &mut Vec<String>, message: String)
    requires
        in_byte_order(message_texts(old(list)@)),
    ensures
        in_byte_order(message_texts(final(list)@)),
        message_texts(final(list)@).to_multiset() == message_texts(old(list)@).to_multiset().insert(
            message@,
        ),
{
    let ghost before = message_texts(list@);
    let ghost key = encode_utf8(message@);
    let mut at: usize = list.len();
    while at > 0 && bytes_lt(message.as_str().as_bytes(), list[at - 1].as_str().as_bytes())
        invariant
            at <= list@.len(),
            before == message_texts(list@),
            key == encode_utf8(message@),
            forall|j: int| at <= j < before.len() ==> lex_lt(key, encode_utf8(#[trigger] before[j])),
        decreases at,
    {
        at -= 1;
    }
    proof {
        assert forall|i: int| 0 <= i < at implies lex_le(
            encode_utf8(#[trigger] before[i]),
            key,
        ) by {
            assert(lex_le(encode_utf8(before[i]), encode_utf8(before[at - 1])));
            lemma_lex_le_transitive(encode_utf8(before[i]), encode_utf8(before[at - 1]), key);
        }
        assert forall|j: int| at <= j < before.len() implies lex_le(
            key,
            encode_utf8(#[trigger] before[j]),
        ) by {
            lemma_lex_asymmetric(key, encode_utf8(before[j]));
        }
    }
    list.insert(at, message);
    proof {
        let after = message_texts(list@);
        assert(after =~= before.insert(at as int, message@));
        to_multiset_insert(before, at as int, message@);
        assert forall|i: int, j: int| 0 <= i < j < after.len() implies lex_le(
            encode_utf8(#[trigger] after[i]),
            encode_utf8(#[trigger] after[j]),
        ) by {
            if i < at && j > at {
                assert(after[j] == before[j - 1]);
                assert(lex_le(encode_utf8(before[i]), encode_utf8(before[j - 1])));
            } else if i < at && j < at {
                assert(lex_le(encode_utf8(before[i]), encode_utf8(before[j])));
            } else if i == at {
                assert(after[j] == before[j - 1]);
            } else if i > at {
                assert(after[i] == before[i - 1] && after[j] == before[j - 1]);
            }
        }
    }
}

/// Lists the messages in byte order, whatever the order in which the tasks
/// finished. Nothing is lost and nothing is added.
pub fn sort_messages(messages: Vec<String>) -> (sorted: Vec<String>)
    ensures
        in_byte_order(message_texts(sorted@)),
        message_texts(sorted@).to_multiset() == message_texts(messages@).to_multiset(),
{
    let ghost all = message_texts(messages@);
    let mut rest = messages;
    let mut sorted: Vec<String> = Vec::new();
    proof {
        assert(message_texts(sorted@) =~= Seq::<Seq<char>>::empty());
        assert(Seq::<Seq<char>>::empty().to_multiset() =~= Multiset::<Seq<char>>::empty()) by {
            broadcast use vstd::seq_lib::group_to_multiset_ensures;

        }
        assert(Multiset::<Seq<char>>::empty().add(all.to_multiset()) =~= all.to_multiset());
    }
    while rest.len() > 0
        invariant
            in_byte_order(message_texts(sorted@)),
            message_texts(sorted@).to_multiset().add(message_texts(rest@).to_multiset())
                == all.to_multiset(),
        decreases rest@.len(),
    {
        let ghost left = message_texts(rest@);
        let ghost done = message_texts(sorted@);
        let message = rest.pop().unwrap();
        proof {
            assert(left =~= message_texts(rest@).push(message@));
            to_multiset_build(message_texts(rest@), message@);
        }
        insert_message(&mut sorted, message);
        assert(message_texts(sorted@).to_multiset().add(message_texts(rest@).to_multiset())
            =~= done.to_multiset().add(left.to_multiset()));
    }
    proof {
        assert(message_texts(rest@) =~= Seq::<Seq<char>>::empty());
        assert(Seq::<Seq<char>>::empty().to_multiset() =~= Multiset::<Seq<char>>::empty()) by {
            broadcast use vstd::seq_lib::group_to_multiset_ensures;

        }
        assert(message_texts(sorted@).to_multiset().add(Multiset::<Seq<char>>::empty())
            =~= message_texts(sorted@).to_multiset());
    }
    sorted
}

} // verus!
