//! Size of a text: its visible characters and its lines.

use vstd::prelude::*;
use vstd::string::*;

verus! {

/// The control characters: the Unicode category `Cc`. Line feed and carriage
/// return are among them.
pub open spec fn is_control(c: char) -> bool {
    let u = c as u32;
    u <= 0x1F || 0x7F <= u <= 0x9F
}

/// How many characters of `s` are not control characters.
pub open spec fn visible_chars(s: Seq<char>) -> nat
    decreases s.len(),
{
    if s.len() == 0 {
        0
    } else if is_control(s.last()) {
        visible_chars(s.drop_last())
    } else {
        visible_chars(s.drop_last()) + 1
    }
}

/// How many line feeds `s` holds.
pub open spec fn line_feeds(s: Seq<char>) -> nat
    decreases s.len(),
{
    if s.len() == 0 {
        0
    } else if s.last() == '\n' {
        line_feeds(s.drop_last()) + 1
    } else {
        line_feeds(s.drop_last())
    }
}

/// How many lines `s` has: one for each line feed, and one more for text
/// after the last line feed.
pub open spec fn line_total(s: Seq<char>) -> nat {
    if s.len() > 0 && s.last() != '\n' {
        line_feeds(s) + 1
    } else {
        line_feeds(s)
    }
}

/// Decides whether a character is a control character.
pub fn char_is_control(c: char) -> (b: bool)
    ensures
        b == is_control(c),
{
    let u = c as u32;
    u <= 0x1F || (0x7F <= u && u <= 0x9F)
}

/// Neither count exceeds the length of the text.
proof fn lemma_counts_bounded(s: Seq<char>)
    ensures
        visible_chars(s) <= s.len(),
        line_feeds(s) <= s.len(),
        line_total(s) <= s.len(),
    decreases s.len(),
{
    if s.len() > 0 {
        lemma_counts_bounded(s.drop_last());
    }
}

/// Counts the visible characters and the lines of a text. Each count is
/// given as an `i32`, reduced to its low 32 bits where it does not fit.
pub fn count(content: &str) -> (totals: (i32, i32))
    ensures
        totals.0 == visible_chars(content@) as i32,
        totals.1 == line_total(content@) as i32,
{
    let length = content.unicode_len();
    let mut visible: usize = 0;
    let mut feeds: usize = 0;
    let mut open_line = false;
    let mut n: usize = 0;
    assert(content@.take(0) =~= Seq::<char>::empty());
    for c in it: content.chars()
        invariant
            n == it.index(),
            it.seq() == content@,
            length == content@.len(),
            visible == visible_chars(content@.take(n as int)),
            feeds == line_feeds(content@.take(n as int)),
            open_line == (n > 0 && content@[n - 1] != '\n'),
    {
        proof {
            let now = content@.take(n + 1);
            assert(now.drop_last() =~= content@.take(n as int));
            assert(now.last() == c);
            lemma_counts_bounded(content@.take(n as int));
        }
        if !char_is_control(c) {
            visible += 1;
        }
        if c == '\n' {
            feeds += 1;
        }
        open_line = c != '\n';
        n += 1;
    }
    assert(content@.take(n as int) =~= content@);
    proof {
        lemma_counts_bounded(content@);
    }
    let lines = if open_line {
        feeds + 1
    } else {
        feeds
    };
    (#[verifier::truncate] (visible as i32), #[verifier::truncate] (lines as i32))
}

} // verus!
