//! The structural markers of a dump: where a table's segment starts and ends,
//! and the table's name as quoted on the line that starts it.

use crate::text::starts_with;
use vstd::prelude::*;
use vstd::std_specs::iter::IteratorSpec;

verus! {

/// The character that quotes a table's name.
pub const QUOTE: char = '`';

/// A line that starts a table's segment.
pub open spec fn is_table_start(line: Seq<char>) -> bool {
    "DROP TABLE"@.is_prefix_of(line)
}

/// A line that ends a table's segment.
pub open spec fn is_table_end(line: Seq<char>) -> bool {
    "UNLOCK TABLES;"@.is_prefix_of(line)
}

/// The position of the first quote at or after `from`, or the line's length
/// if there is none.
pub open spec fn next_quote(line: Seq<char>, from: int) -> int
    recommends
        0 <= from,
    decreases line.len() - from,
{
    if from >= line.len() {
        line.len() as int
    } else if line[from] == QUOTE {
        from
    } else {
        next_quote(line, from + 1)
    }
}

/// The text between the first two quotes of the line; empty if the line has
/// fewer than two quotes.
pub open spec fn table_name(line: Seq<char>) -> Seq<char> {
    let opening = next_quote(line, 0);
    let closing = next_quote(line, opening + 1);
    if closing < line.len() {
        line.subrange(opening + 1, closing)
    } else {
        Seq::empty()
    }
}

/// `next_quote` finds the least position of a quote that is not before `from`.
pub proof fn lemma_next_quote_is_least(line: Seq<char>, from: int)
    requires
        0 <= from <= line.len(),
    ensures
        from <= next_quote(line, from) <= line.len(),
        forall|i: int| from <= i < next_quote(line, from) ==> line[i] != QUOTE,
        next_quote(line, from) < line.len() ==> line[next_quote(line, from)] == QUOTE,
    decreases line.len() - from,
{
    if from < line.len() && line[from] != QUOTE {
        lemma_next_quote_is_least(line, from + 1);
    }
}

/// No line both starts and ends a table's segment.
pub proof fn lemma_start_is_not_end(line: Seq<char>)
    ensures
        !(is_table_start(line) && is_table_end(line)),
{
    reveal_strlit("DROP TABLE");
    reveal_strlit("UNLOCK TABLES;");
    if is_table_start(line) && is_table_end(line) {
        assert(line.subrange(0, 10)[0] == 'D');
        assert(line.subrange(0, 14)[0] == 'U');
    }
}

/// Whether the line starts a table's segment.
pub fn starts_table(line: &str) -> (found: bool)
    ensures
        found == is_table_start(line@),
{
    starts_with(line, "DROP TABLE")
}

/// Whether the line ends a table's segment.
pub fn ends_table(line: &str) -> (found: bool)
    ensures
        found == is_table_end(line@),
{
    starts_with(line, "UNLOCK TABLES;")
}

/// The table's name as quoted on the line.
pub fn extract_table_name(line: &str) -> (name: String)
    ensures
        name@ == table_name(line@),
{
    let length = line.unicode_len();
    let mut chars = line.chars();
    let mut at: usize = 0;
    let mut opening: Option<usize> = None;
    let mut closing: Option<usize> = None;
    while at < length && closing.is_none()
        invariant
            at <= length,
            length == line@.len(),
            chars.remaining() == line@.skip(at as int),
            match opening {
                None => closing is None && next_quote(line@, 0) == next_quote(line@, at as int),
                Some(first) => first < at && next_quote(line@, 0) == first && match closing {
                    None => next_quote(line@, first + 1) == next_quote(line@, at as int),
                    Some(second) => second < length && next_quote(line@, first + 1) == second,
                },
            },
        decreases (length - at) + (if closing is None { 1int } else { 0int }),
    {
        assert(line@.skip(at as int).drop_first() == line@.skip(at + 1));
        match chars.next() {
            Some(c) => {
                if c == QUOTE {
                    if opening.is_none() {
                        opening = Some(at);
                    } else {
                        closing = Some(at);
                    }
                }
            },
            None => {},
        }
        at = at + 1;
    }
    match (opening, closing) {
        (Some(first), Some(second)) => {
            proof {
                lemma_next_quote_is_least(line@, first + 1);
            }
            String::from_str(line.substring_char(first + 1, second))
        },
        _ => String::new(),
    }
}

} // verus!
