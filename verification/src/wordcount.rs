//! Word frequencies of a text: how often each word occurs, most frequent
//! first.

use crate::order::{bytes_lt, lemma_lex_total, lemma_lex_transitive, lex_lt};
use crate::text::{is_whitespace, lowercase, str_to_lowercase};
use vstd::prelude::*;
use vstd::string::*;
use vstd::utf8::*;

verus! {

/// The longest run of characters at the end of `s` that holds no whitespace.
pub open spec fn last_word(s: Seq<char>) -> Seq<char>
    decreases s.len(),
{
    if s.len() == 0 || is_whitespace(s.last()) {
        Seq::empty()
    } else {
        last_word(s.drop_last()).push(s.last())
    }
}

/// The words of `s`: its maximal runs of characters that are not
/// whitespace, in order.
pub open spec fn words_of(s: Seq<char>) -> Seq<Seq<char>>
    decreases s.len(),
{
    if s.len() == 0 {
        Seq::empty()
    } else if is_whitespace(s.last()) {
        words_of(s.drop_last())
    } else {
        let w = last_word(s);
        if 0 < w.len() <= s.len() {
            words_of(s.subrange(0, s.len() - w.len())).push(w)
        } else {
            Seq::empty()
        }
    }
}

/// Each word in lowercase.
pub open spec fn lowered(words: Seq<Seq<char>>) -> Seq<Seq<char>> {
    words.map_values(|w: Seq<char>| lowercase(w))
}

/// How often `w` stands in `words`.
pub open spec fn occurrences(words: Seq<Seq<char>>, w: Seq<char>) -> nat
    decreases words.len(),
{
    if words.len() == 0 {
        0
    } else if words.last() == w {
        occurrences(words.drop_last(), w) + 1
    } else {
        occurrences(words.drop_last(), w)
    }
}

/// One row of a frequency table: a word and its count.
pub type Row = (Seq<char>, nat);

/// Row `a` is listed before row `b`: it has the higher count, or the same
/// count and the word that comes first byte by byte.
pub open spec fn row_before(a: Row, b: Row) -> bool {
    a.1 > b.1 || (a.1 == b.1 && lex_lt(encode_utf8(a.0), encode_utf8(b.0)))
}

/// The rows of a vector of pairs, in order.
pub open spec fn rows(table: Seq<(String, usize)>) -> Seq<Row> {
    table.map_values(|e: (String, usize)| (e.0@, e.1 as nat))
}

/// `table` is the frequency table of `words`: it has a row for exactly the
/// words that occur, each with its number of occurrences, most frequent
/// first and, among equals, in byte order of the words.
pub open spec fn is_frequency_table(table: Seq<Row>, words: Seq<Seq<char>>) -> bool {
    &&& forall|i: int|
        0 <= i < table.len() ==> (#[trigger] table[i]).1 == occurrences(words, table[i].0)
            && table[i].1 > 0
    &&& forall|w: Seq<char>| #[trigger]
        occurrences(words, w) > 0 ==> exists|i: int|
            0 <= i < table.len() && (#[trigger] table[i]).0 == w
    &&& forall|i: int, j: int|
        0 <= i < j < table.len() ==> row_before(#[trigger] table[i], #[trigger] table[j])
}

/// The texts of a vector of strings, in order.
pub open spec fn word_texts(words: Seq<String>) -> Seq<Seq<char>> {
    words.map_values(|w: String| w@)
}

/// `str::split_whitespace`: the non-empty pieces of the text between runs
/// of `White_Space` characters, in order, each as an owned string.
#[verifier::external_body]
pub(crate) fn split_words(input: &str) -> (words: Vec<String>)
    ensures
        word_texts(words@) == words_of(input@),
{
    let mut words = Vec::new();
    for w in input.split_whitespace() {
        words.push(w.to_owned());
    }
    words
}

/// A word occurs at most as often as there are words.
proof fn lemma_occurrences_bounded(words: Seq<Seq<char>>, w: Seq<char>)
    ensures
        occurrences(words, w) <= words.len(),
    decreases words.len(),
{
    if words.len() > 0 {
        lemma_occurrences_bounded(words.drop_last(), w);
    }
}

/// Counting over one more word.
proof fn lemma_occurrences_push(words: Seq<Seq<char>>, next: Seq<char>, w: Seq<char>)
    ensures
        occurrences(words.push(next), w) == occurrences(words, w) + if next == w {
            1nat
        } else {
            0nat
        },
{
    assert(words.push(next).drop_last() =~= words);
}

/// The position of `word` among `keys`, if it is there.
fn find_key(keys: &Vec<String>, word: &String) -> (at: Option<usize>)
    ensures
        match at {
            Some(j) => j < keys@.len() && keys@[j as int]@ == word@,
            None => forall|j: int| 0 <= j < keys@.len() ==> (#[trigger] keys@[j])@ != word@,
        },
{
    let mut j: usize = 0;
    while j < keys.len()
        invariant
            j <= keys@.len(),
            forall|k: int| 0 <= k < j ==> (#[trigger] keys@[k])@ != word@,
        decreases keys@.len() - j,
    {
        if keys[j] == *word {
            return Some(j);
        }
        j += 1;
    }
    None
}

/// `keys` and `counts` tally `words`: distinct keys, one for each word that
/// occurs, each with its number of occurrences.
spec fn tallies(keys: Seq<Seq<char>>, counts: Seq<usize>, words: Seq<Seq<char>>) -> bool {
    &&& keys.len() == counts.len()
    &&& forall|i: int|
        0 <= i < keys.len() ==> (#[trigger] counts[i]) == occurrences(words, keys[i]) && counts[i]
            > 0
    &&& forall|i: int, j: int| 0 <= i < j < keys.len() ==> #[trigger] keys[i] != #[trigger] keys[j]
    &&& forall|w: Seq<char>| #[trigger] occurrences(words, w) > 0 ==> keys.contains(w)
}

/// Decides whether the row `(word_a, count_a)` is listed before the row
/// `(word_b, count_b)`.
fn listed_before(word_a: &str, count_a: usize, word_b: &str, count_b: usize) -> (r: bool)
    ensures
        r == row_before((word_a@, count_a as nat), (word_b@, count_b as nat)),
{
    if count_a != count_b {
        count_a > count_b
    } else {
        bytes_lt(word_a.as_bytes(), word_b.as_bytes())
    }
}

/// Of two rows with different words, one is listed before the other.
proof fn lemma_row_total(a: Row, b: Row)
    requires
        a.0 != b.0,
    ensures
        row_before(a, b) || row_before(b, a),
{
    lemma_lex_total(encode_utf8(a.0), encode_utf8(b.0));
    if encode_utf8(a.0) == encode_utf8(b.0) {
        encode_utf8_decode_utf8(a.0);
        encode_utf8_decode_utf8(b.0);
    }
}

/// The listing order is transitive.
proof fn lemma_row_transitive(a: Row, b: Row, c: Row)
    requires
        row_before(a, b),
        row_before(b, c),
    ensures
        row_before(a, c),
{
    if a.1 == b.1 && b.1 == c.1 {
        lemma_lex_transitive(encode_utf8(a.0), encode_utf8(b.0), encode_utf8(c.0));
    }
}

/// The rows are listed in order.
pub open spec fn rows_in_order(table: Seq<Row>) -> bool {
    forall|i: int, j: int|
        0 <= i < j < table.len() ==> row_before(#[trigger] table[i], #[trigger] table[j])
}

/// The rows that a tally stands for, key by key.
spec fn tally_rows(keys: Seq<Seq<char>>, counts: Seq<usize>) -> Seq<Row> {
    Seq::new(keys.len(), |k: int| (keys[k], counts[k] as nat))
}

/// Tallies the lowercase forms of `words`.
fn tally(words: &Vec<String>) -> (r: (Vec<String>, Vec<usize>))
    ensures
        tallies(word_texts(r.0@), r.1@, lowered(word_texts(words@))),
{
    let ghost all = lowered(word_texts(words@));
    let mut keys: Vec<String> = Vec::new();
    let mut counts: Vec<usize> = Vec::new();
    let mut n: usize = 0;
    assert(word_texts(keys@) =~= Seq::<Seq<char>>::empty());
    assert(all.take(0) =~= Seq::<Seq<char>>::empty());
    while n < words.len()
        invariant
            n <= words@.len(),
            all == lowered(word_texts(words@)),
            tallies(word_texts(keys@), counts@, all.take(n as int)),
        decreases words@.len() - n,
    {
        let ghost seen = all.take(n as int);
        let ghost old_keys = word_texts(keys@);
        let word = str_to_lowercase(words[n].as_str());
        proof {
            assert(all.take(n + 1) =~= seen.push(word@));
            assert forall|w: Seq<char>|
                occurrences(seen.push(word@), w) == occurrences(seen, w) + if word@ == w {
                    1nat
                } else {
                    0nat
                } by {
                lemma_occurrences_push(seen, word@, w);
            }
            lemma_occurrences_bounded(seen, word@);
        }
        match find_key(&keys, &word) {
            Some(j) => {
                assert(old_keys[j as int] == word@);
                let c = counts[j];
                counts.set(j, c + 1);
                proof {
                    let now = all.take(n + 1);
                    assert forall|w: Seq<char>| #[trigger]
                        occurrences(now, w) > 0 implies old_keys.contains(w) by {
                        if w != word@ {
                            assert(occurrences(seen, w) > 0);
                        }
                    }
                }
            },
            None => {
                keys.push(word);
                counts.push(1);
                proof {
                    let now = all.take(n + 1);
                    let new_keys = word_texts(keys@);
                    assert(new_keys =~= old_keys.push(word@));
                    if occurrences(seen, word@) > 0 {
                        assert(old_keys.contains(word@));
                    }
                    assert forall|w: Seq<char>| #[trigger]
                        occurrences(now, w) > 0 implies new_keys.contains(w) by {
                        if w != word@ {
                            assert(occurrences(seen, w) > 0);
                            let i = choose|i: int| 0 <= i < old_keys.len() && old_keys[i] == w;
                            assert(new_keys[i] == w);
                        } else {
                            assert(new_keys[new_keys.len() - 1] == w);
                        }
                    }
                }
            },
        }
        n += 1;
    }
    assert(all.take(n as int) =~= all);
    (keys, counts)
}

/// Puts a row for a new word at its place in an ordered table.
fn insert_row(table: &mut Vec<(String, usize)>, word: String, count: usize)
    requires
        rows_in_order(rows(old(table)@)),
        forall|i: int| 0 <= i < old(table)@.len() ==> (#[trigger] rows(old(table)@)[i]).0 != word@,
    ensures
        rows_in_order(rows(final(table)@)),
        forall|r: Row|
            rows(final(table)@).contains(r) <==> (r == (word@, count as nat) || rows(
                old(table)@,
            ).contains(r)),
{
    let ghost old_rows = rows(table@);
    let ghost row: Row = (word@, count as nat);
    let mut at: usize = 0;
    while at < table.len() && listed_before(
        table[at].0.as_str(),
        table[at].1,
        word.as_str(),
        count,
    )
        invariant
            at <= table@.len(),
            old_rows == rows(table@),
            row == (word@, count as nat),
            forall|i: int| 0 <= i < at ==> row_before(#[trigger] old_rows[i], row),
        decreases table@.len() - at,
    {
        at += 1;
    }
    proof {
        assert forall|j: int| at <= j < old_rows.len() implies row_before(
            row,
            #[trigger] old_rows[j],
        ) by {
            lemma_row_total(row, old_rows[at as int]);
            if j > at {
                lemma_row_transitive(row, old_rows[at as int], old_rows[j]);
            }
        }
    }
    table.insert(at, (word, count));
    proof {
        let new_rows = rows(table@);
        assert(new_rows =~= old_rows.insert(at as int, row));
        assert forall|i: int, j: int| 0 <= i < j < new_rows.len() implies row_before(
            #[trigger] new_rows[i],
            #[trigger] new_rows[j],
        ) by {
            if i < at && j == at {
            } else if i < at && j > at {
                assert(new_rows[j] == old_rows[j - 1]);
                assert(row_before(old_rows[i], old_rows[j - 1]));
            } else if i < at {
                assert(row_before(old_rows[i], old_rows[j]));
            } else if i == at {
                assert(new_rows[j] == old_rows[j - 1]);
            } else {
                assert(new_rows[i] == old_rows[i - 1] && new_rows[j] == old_rows[j - 1]);
            }
        }
        assert forall|r: Row| new_rows.contains(r) <==> (r == row || old_rows.contains(r)) by {
            if new_rows.contains(r) {
                let i = choose|i: int| 0 <= i < new_rows.len() && new_rows[i] == r;
                if i < at {
                    assert(old_rows[i] == r);
                } else if i > at {
                    assert(old_rows[i - 1] == r);
                }
            }
            if r == row {
                assert(new_rows[at as int] == r);
            }
            if old_rows.contains(r) {
                let o = choose|o: int| 0 <= o < old_rows.len() && old_rows[o] == r;
                if o < at {
                    assert(new_rows[o] == r);
                } else {
                    assert(new_rows[o + 1] == r);
                }
            }
        }
    }
}

/// Lists the rows of a tally in order.
fn order_rows(keys: Vec<String>, counts: Vec<usize>) -> (table: Vec<(String, usize)>)
    requires
        keys@.len() == counts@.len(),
        forall|i: int, j: int|
            0 <= i < j < keys@.len() ==> #[trigger] word_texts(keys@)[i] != #[trigger] word_texts(
                keys@,
            )[j],
    ensures
        rows_in_order(rows(table@)),
        forall|r: Row|
            rows(table@).contains(r) <==> tally_rows(word_texts(keys@), counts@).contains(r),
{
    let ghost all_rows = tally_rows(word_texts(keys@), counts@);
    let mut keys = keys;
    let mut counts = counts;
    let mut table: Vec<(String, usize)> = Vec::new();
    assert(rows(table@) =~= Seq::<Row>::empty());
    assert(all_rows.subrange(all_rows.len() as int, all_rows.len() as int) =~= Seq::<Row>::empty());
    assert(tally_rows(word_texts(keys@), counts@).take(keys@.len() as int) =~= all_rows);
    while keys.len() > 0
        invariant
            keys@.len() == counts@.len(),
            keys@.len() <= all_rows.len(),
            forall|i: int, j: int|
                0 <= i < j < all_rows.len() ==> (#[trigger] all_rows[i]).0 != (
                #[trigger] all_rows[j]).0,
            tally_rows(word_texts(keys@), counts@) == all_rows.take(keys@.len() as int),
            rows_in_order(rows(table@)),
            forall|r: Row|
                rows(table@).contains(r) <==> all_rows.subrange(
                    keys@.len() as int,
                    all_rows.len() as int,
                ).contains(r),
        decreases keys@.len(),
    {
        let ghost m = keys@.len() - 1;
        let ghost old_rows = rows(table@);
        let ghost old_tally = tally_rows(word_texts(keys@), counts@);
        let ghost done = all_rows.subrange(m + 1, all_rows.len() as int);
        let word = keys.pop().unwrap();
        let count = counts.pop().unwrap();
        proof {
            assert(old_tally[m] == all_rows.take(m + 1)[m]);
            assert(old_tally[m] == (word@, count as nat));
            assert(tally_rows(word_texts(keys@), counts@) =~= all_rows.take(m));
            assert forall|i: int| 0 <= i < old_rows.len() implies (#[trigger] old_rows[i]).0
                != word@ by {
                assert(old_rows.contains(old_rows[i]));
                let k = choose|k: int| 0 <= k < done.len() && done[k] == old_rows[i];
                assert(done[k] == all_rows[m + 1 + k]);
            }
        }
        insert_row(&mut table, word, count);
        proof {
            let now = all_rows.subrange(m, all_rows.len() as int);
            assert forall|r: Row| rows(table@).contains(r) <==> now.contains(r) by {
                if now.contains(r) {
                    let k = choose|k: int| 0 <= k < now.len() && now[k] == r;
                    if k > 0 {
                        assert(done[k - 1] == r);
                    }
                }
                if r == all_rows[m] {
                    assert(now[0] == r);
                }
                if done.contains(r) {
                    let k = choose|k: int| 0 <= k < done.len() && done[k] == r;
                    assert(now[k + 1] == r);
                }
            }
        }
    }
    assert(all_rows.subrange(0, all_rows.len() as int) =~= all_rows);
    table
}

/// An ordered listing of the rows of a tally is the frequency table.
proof fn lemma_frequency_table(
    table: Seq<Row>,
    keys: Seq<Seq<char>>,
    counts: Seq<usize>,
    words: Seq<Seq<char>>,
)
    requires
        tallies(keys, counts, words),
        rows_in_order(table),
        forall|r: Row| table.contains(r) <==> tally_rows(keys, counts).contains(r),
    ensures
        is_frequency_table(table, words),
{
    let all_rows = tally_rows(keys, counts);
    assert forall|i: int| 0 <= i < table.len() implies (#[trigger] table[i]).1 == occurrences(
        words,
        table[i].0,
    ) && table[i].1 > 0 by {
        assert(table.contains(table[i]));
        let k = choose|k: int| 0 <= k < all_rows.len() && all_rows[k] == table[i];
        assert(counts[k] == occurrences(words, keys[k]));
    }
    assert forall|w: Seq<char>| #[trigger] occurrences(words, w) > 0 implies exists|i: int|
        0 <= i < table.len() && (#[trigger] table[i]).0 == w by {
        assert(keys.contains(w));
        let k = choose|k: int| 0 <= k < keys.len() && keys[k] == w;
        assert(all_rows[k] == (w, counts[k] as nat));
        assert(all_rows.contains(all_rows[k]));
        assert(table.contains(all_rows[k]));
        let i = choose|i: int| 0 <= i < table.len() && table[i] == all_rows[k];
        assert(table[i].0 == w);
    }
}

/// Counts the words of a text, ignoring case, and lists them by falling
/// count; words with the same count come in byte order.
pub fn process_input(input: &str) -> (table: Vec<(String, usize)>)
    ensures
        is_frequency_table(rows(table@), lowered(words_of(input@))),
{
    let words = split_words(input);
    let (keys, counts) = tally(&words);
    let ghost key_texts = word_texts(keys@);
    let ghost key_counts = counts@;
    let table = order_rows(keys, counts);
    proof {
        lemma_frequency_table(rows(table@), key_texts, key_counts, lowered(words_of(input@)));
    }
    table
}

} // verus!
