//! Text as sequences of characters: prefixes, joined lines and terminated lines.

use vstd::prelude::*;
use vstd::std_specs::iter::IteratorSpec;

verus! {

/// The lines joined into one text, with `separator` between each two
/// neighbours and nothing after the last.
pub open spec fn join(lines: Seq<Seq<char>>, separator: Seq<char>) -> Seq<char>
    decreases lines.len(),
{
    if lines.len() == 0 {
        Seq::empty()
    } else if lines.len() == 1 {
        lines[0]
    } else {
        join(lines.drop_last(), separator) + separator + lines.last()
    }
}

/// The lines written one after the other, each followed by a line feed.
pub open spec fn terminated(lines: Seq<Seq<char>>) -> Seq<char>
    decreases lines.len(),
{
    if lines.len() == 0 {
        Seq::empty()
    } else {
        terminated(lines.drop_last()) + lines.last() + "\n"@
    }
}

/// Joining one more line adds the separator and the line, unless it is the first.
pub proof fn lemma_join_push(lines: Seq<Seq<char>>, separator: Seq<char>, line: Seq<char>)
    ensures
        join(lines.push(line), separator) == if lines.len() == 0 {
            line
        } else {
            join(lines, separator) + separator + line
        },
{
    assert(lines.push(line).drop_last() =~= lines);
}

/// Terminating one more line appends the line and a line feed.
pub proof fn lemma_terminated_push(lines: Seq<Seq<char>>, line: Seq<char>)
    ensures
        terminated(lines.push(line)) == terminated(lines) + line + "\n"@,
{
    assert(lines.push(line).drop_last() =~= lines);
}

/// Terminating a concatenation concatenates the terminated parts.
pub proof fn lemma_terminated_concat(first: Seq<Seq<char>>, second: Seq<Seq<char>>)
    ensures
        terminated(first + second) == terminated(first) + terminated(second),
    decreases second.len(),
{
    if second.len() == 0 {
        assert(first + second =~= first);
        assert(terminated(first) + terminated(second) =~= terminated(first));
    } else {
        lemma_terminated_concat(first, second.drop_last());
        assert((first + second).drop_last() =~= first + second.drop_last());
        assert((first + second).last() == second.last());
        assert(terminated(first + second) =~= terminated(first) + terminated(second));
    }
}

/// Whether `text` begins with `prefix`.
pub fn starts_with(text: &str, prefix: &str) -> (found: bool)
    ensures
        found == prefix@.is_prefix_of(text@),
{
    let mut rest = text.chars();
    let mut wanted = prefix.chars();
    let ghost mut matched: int = 0;
    loop
        invariant
            0 <= matched <= prefix@.len(),
            matched <= text@.len(),
            rest.remaining() == text@.skip(matched),
            wanted.remaining() == prefix@.skip(matched),
            prefix@.take(matched) == text@.take(matched),
        decreases prefix@.len() - matched,
    {
        match wanted.next() {
            None => {
                assert(prefix@.take(matched) == prefix@);
                return true;
            },
            Some(expected) => {
                match rest.next() {
                    None => {
                        return false;
                    },
                    Some(actual) => {
                        if actual != expected {
                            assert(prefix@[matched] != text@[matched]);
                            return false;
                        }
                        assert(prefix@.take(matched + 1) == prefix@.take(matched).push(expected));
                        assert(text@.take(matched + 1) == text@.take(matched).push(actual));
                        assert(prefix@.skip(matched).drop_first() == prefix@.skip(matched + 1));
                        assert(text@.skip(matched).drop_first() == text@.skip(matched + 1));
                        proof {
                            matched = matched + 1;
                        }
                    },
                }
            },
        }
    }
}

/// Joins the lines with `separator` between them.
pub fn join_lines(lines: &Vec<String>, separator: &str) -> (text: String)
    ensures
        text@ == join(lines.deep_view(), separator@),
{
    let mut text = String::new();
    let mut done: usize = 0;
    while done < lines.len()
        invariant
            done <= lines.len(),
            text@ == join(lines.deep_view().take(done as int), separator@),
        decreases lines.len() - done,
    {
        proof {
            lemma_join_push(lines.deep_view().take(done as int), separator@, lines[done as int]@);
            assert(lines.deep_view().take(done + 1) =~= lines.deep_view().take(done as int).push(
                lines[done as int]@,
            ));
        }
        if done > 0 {
            text.append(separator);
        }
        text.append(lines[done].as_str());
        done = done + 1;
    }
    assert(lines.deep_view().take(done as int) =~= lines.deep_view());
    text
}

} // verus!
