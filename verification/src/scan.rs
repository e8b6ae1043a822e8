//! The scanner: one forward pass over a dump that finds the preamble shared by
//! every table (the lines before the first table starts) and the postamble
//! shared by every table (the lines after the last table ends).

use crate::markers::{ends_table, is_table_end, is_table_start, starts_table};
use crate::text::{join, join_lines};
use vstd::prelude::*;

verus! {

/// The position of the first line at or after `from` that starts a table, or
/// the number of lines if there is none.
pub open spec fn next_table_start(lines: Seq<Seq<char>>, from: int) -> int
    recommends
        0 <= from,
    decreases lines.len() - from,
{
    if from >= lines.len() {
        lines.len() as int
    } else if is_table_start(lines[from]) {
        from
    } else {
        next_table_start(lines, from + 1)
    }
}

/// The position of the first line that starts a table, or the number of
/// lines if no line does.
pub open spec fn first_table_start(lines: Seq<Seq<char>>) -> int {
    next_table_start(lines, 0)
}

/// The position of the last line that ends a table and stands after
/// position `after`, or -1 if there is none.
pub open spec fn last_table_end_after(lines: Seq<Seq<char>>, after: int) -> int
    decreases lines.len(),
{
    if lines.len() == 0 || lines.len() - 1 <= after {
        -1
    } else if is_table_end(lines.last()) {
        lines.len() - 1
    } else {
        last_table_end_after(lines.drop_last(), after)
    }
}

/// The position of the last line that ends a table, counting only lines after
/// the first line that starts one, or -1 if there is none.
pub open spec fn last_table_end(lines: Seq<Seq<char>>) -> int {
    last_table_end_after(lines, first_table_start(lines))
}

/// The lines before the first table starts: the whole dump if none does.
pub open spec fn preamble_lines(lines: Seq<Seq<char>>) -> Seq<Seq<char>> {
    lines.take(first_table_start(lines))
}

/// The lines after the last table ends: none if no table ever ends.
pub open spec fn postamble_lines(lines: Seq<Seq<char>>) -> Seq<Seq<char>> {
    if last_table_end(lines) < 0 {
        Seq::empty()
    } else {
        lines.skip(last_table_end(lines) + 1)
    }
}

/// `next_table_start` finds the least position of a table start that is not
/// before `from`.
pub proof fn lemma_next_table_start_is_least(lines: Seq<Seq<char>>, from: int)
    requires
        0 <= from <= lines.len(),
    ensures
        from <= next_table_start(lines, from) <= lines.len(),
        forall|i: int| from <= i < next_table_start(lines, from) ==> !is_table_start(lines[i]),
        next_table_start(lines, from) < lines.len() ==> is_table_start(
            lines[next_table_start(lines, from)],
        ),
    decreases lines.len() - from,
{
    if from < lines.len() && !is_table_start(lines[from]) {
        lemma_next_table_start_is_least(lines, from + 1);
    }
}

/// A position at or after `from` with no table start between `from` and it,
/// and which holds a table start or is the end of the lines, is the one that
/// `next_table_start` finds.
pub proof fn lemma_next_table_start_unique(lines: Seq<Seq<char>>, from: int, at: int)
    requires
        0 <= from <= at <= lines.len(),
        forall|i: int| from <= i < at ==> !is_table_start(lines[i]),
        at < lines.len() ==> is_table_start(lines[at]),
    ensures
        next_table_start(lines, from) == at,
    decreases at - from,
{
    if from < at {
        lemma_next_table_start_unique(lines, from + 1, at);
    }
}

/// `last_table_end_after` finds the greatest position of a table end behind
/// `after`.
pub proof fn lemma_last_table_end_is_greatest(lines: Seq<Seq<char>>, after: int)
    ensures
        last_table_end_after(lines, after) == -1 || after < last_table_end_after(lines, after)
            < lines.len(),
        last_table_end_after(lines, after) >= 0 ==> is_table_end(
            lines[last_table_end_after(lines, after)],
        ),
        forall|i: int|
            after < i < lines.len() && last_table_end_after(lines, after) < i && 0 <= i
                ==> !is_table_end(lines[i]),
    decreases lines.len(),
{
    if lines.len() == 0 || lines.len() - 1 <= after {
    } else if is_table_end(lines.last()) {
    } else {
        lemma_last_table_end_is_greatest(lines.drop_last(), after);
        let found = last_table_end_after(lines.drop_last(), after);
        assert forall|i: int|
            after < i < lines.len() && found < i && 0 <= i implies !is_table_end(lines[i]) by {
            if i < lines.len() - 1 {
                assert(lines.drop_last()[i] == lines[i]);
            }
        }
        if found >= 0 {
            assert(lines.drop_last()[found] == lines[found]);
        }
    }
}

/// What one more line does to the first table start.
pub proof fn lemma_first_table_start_push(lines: Seq<Seq<char>>, line: Seq<char>)
    ensures
        first_table_start(lines.push(line)) == if first_table_start(lines) < lines.len() {
            first_table_start(lines)
        } else if is_table_start(line) {
            lines.len() as int
        } else {
            lines.len() as int + 1
        },
{
    let longer = lines.push(line);
    let first = first_table_start(lines);
    lemma_next_table_start_is_least(lines, 0);
    assert forall|i: int| 0 <= i < first implies !is_table_start(longer[i]) by {
        assert(longer[i] == lines[i]);
    }
    if first < lines.len() {
        assert(longer[first] == lines[first]);
        lemma_next_table_start_unique(longer, 0, first);
    } else if is_table_start(line) {
        lemma_next_table_start_unique(longer, 0, lines.len() as int);
    } else {
        lemma_next_table_start_unique(longer, 0, lines.len() as int + 1);
    }
}

/// What one more line does to the last table end behind a fixed position.
pub proof fn lemma_last_table_end_push(lines: Seq<Seq<char>>, after: int, line: Seq<char>)
    ensures
        last_table_end_after(lines.push(line), after) == if after < lines.len() && is_table_end(
            line,
        ) {
            lines.len() as int
        } else {
            last_table_end_after(lines, after)
        },
{
    assert(lines.push(line).drop_last() =~= lines);
    lemma_last_table_end_is_greatest(lines, after);
}

/// The preamble of a dump in which no table starts is the whole dump, and
/// its postamble is empty.
pub proof fn lemma_no_table_start(lines: Seq<Seq<char>>)
    requires
        forall|i: int| 0 <= i < lines.len() ==> !is_table_start(lines[i]),
    ensures
        preamble_lines(lines) == lines,
        postamble_lines(lines) == Seq::<Seq<char>>::empty(),
{
    lemma_next_table_start_unique(lines, 0, lines.len() as int);
    lemma_last_table_end_is_greatest(lines, lines.len() as int);
    assert(lines.take(lines.len() as int) =~= lines);
}

/// The preamble of a dump whose first line starts a table is empty.
pub proof fn lemma_table_start_first(lines: Seq<Seq<char>>)
    requires
        lines.len() > 0,
        is_table_start(lines[0]),
    ensures
        preamble_lines(lines) == Seq::<Seq<char>>::empty(),
{
    assert(lines.take(0) =~= Seq::<Seq<char>>::empty());
}

/// The postamble of a dump in which no table ends is empty.
pub proof fn lemma_no_table_end(lines: Seq<Seq<char>>)
    requires
        forall|i: int| 0 <= i < lines.len() ==> !is_table_end(lines[i]),
    ensures
        postamble_lines(lines) == Seq::<Seq<char>>::empty(),
{
    lemma_last_table_end_is_greatest(lines, first_table_start(lines));
}

/// A scanner that is fed a dump line by line. It keeps the preamble and the
/// lines read since the last table ended, and nothing else of the dump.
pub struct Scanner {
    in_preamble: bool,
    preamble: Vec<String>,
    seen_end: bool,
    tail: Vec<String>,
    seen: Ghost<Seq<Seq<char>>>,
}

impl View for Scanner {
    type V = Seq<Seq<char>>;

    /// The lines fed so far, in order.
    closed spec fn view(&self) -> Seq<Seq<char>> {
        self.seen@
    }
}

impl Scanner {
    #[verifier::type_invariant]
    spec fn consistent(self) -> bool {
        let lines = self.seen@;
        &&& self.in_preamble == (first_table_start(lines) == lines.len())
        &&& self.preamble.deep_view() == preamble_lines(lines)
        &&& self.seen_end == (last_table_end(lines) >= 0)
        &&& self.tail.deep_view() == postamble_lines(lines)
    }

    /// A scanner that has read nothing.
    pub fn new() -> (scanner: Scanner)
        ensures
            scanner@ == Seq::<Seq<char>>::empty(),
    {
        let preamble: Vec<String> = Vec::new();
        let tail: Vec<String> = Vec::new();
        proof {
            let lines = Seq::<Seq<char>>::empty();
            assert(preamble.deep_view() =~= preamble_lines(lines));
            assert(tail.deep_view() =~= postamble_lines(lines));
        }
        Scanner { in_preamble: true, preamble, seen_end: false, tail, seen: Ghost(Seq::empty()) }
    }

    /// Reads the next line of the dump.
    pub fn feed(&mut self, line: &str)
        ensures
            final(self)@ == old(self)@.push(line@),
    {
        proof {
            use_type_invariant(&*self);
        }
        let mut state = Scanner::new();
        std::mem::swap(self, &mut state);
        let Scanner { in_preamble, preamble, seen_end, tail, seen } = state;
        let mut in_preamble = in_preamble;
        let mut preamble = preamble;
        let mut seen_end = seen_end;
        let mut tail = tail;
        let ghost before = seen@;
        let ghost after = before.push(line@);
        proof {
            lemma_first_table_start_push(before, line@);
            lemma_last_table_end_push(before, first_table_start(before), line@);
            lemma_next_table_start_is_least(before, 0);
            lemma_last_table_end_is_greatest(before, first_table_start(before));
        }
        if in_preamble {
            if starts_table(line) {
                in_preamble = false;
                proof {
                    assert(preamble_lines(after) =~= preamble_lines(before));
                }
            } else {
                let ghost kept = preamble.deep_view();
                preamble.push(line.to_owned());
                proof {
                    assert(preamble.deep_view() =~= kept.push(line@));
                    assert(preamble_lines(after) =~= preamble_lines(before).push(line@));
                }
            }
            proof {
                lemma_last_table_end_is_greatest(after, first_table_start(after));
            }
        } else {
            proof {
                assert(preamble_lines(after) =~= preamble_lines(before));
            }
            if ends_table(line) {
                seen_end = true;
                tail = Vec::new();
                proof {
                    assert(tail.deep_view() =~= postamble_lines(after));
                }
            } else if seen_end {
                let ghost kept = tail.deep_view();
                tail.push(line.to_owned());
                proof {
                    assert(tail.deep_view() =~= kept.push(line@));
                    assert(postamble_lines(after) =~= postamble_lines(before).push(line@));
                }
            }
        }
        *self = Scanner { in_preamble, preamble, seen_end, tail, seen: Ghost(after) };
    }

    /// The preamble and the postamble of the dump read so far, each as its
    /// lines joined by line feeds.
    pub fn finish(self) -> (parts: (String, String))
        ensures
            parts.0@ == join(preamble_lines(self@), "\n"@),
            parts.1@ == join(postamble_lines(self@), "\n"@),
    {
        proof {
            use_type_invariant(&self);
        }
        (join_lines(&self.preamble, "\n"), join_lines(&self.tail, "\n"))
    }
}

/// Scans a whole dump, given as its lines: the preamble and the postamble
/// shared by its tables, each as its lines joined by line feeds.
pub fn scan_sql_dump(lines: &Vec<String>) -> (parts: (String, String))
    ensures
        parts.0@ == join(preamble_lines(lines.deep_view()), "\n"@),
        parts.1@ == join(postamble_lines(lines.deep_view()), "\n"@),
{
    let mut scanner = Scanner::new();
    let mut at: usize = 0;
    while at < lines.len()
        invariant
            at <= lines.len(),
            scanner@ == lines.deep_view().take(at as int),
        decreases lines.len() - at,
    {
        scanner.feed(lines[at].as_str());
        proof {
            assert(lines.deep_view().take(at + 1) =~= lines.deep_view().take(at as int).push(
                lines[at as int]@,
            ));
        }
        at = at + 1;
    }
    proof {
        assert(lines.deep_view().take(at as int) =~= lines.deep_view());
    }
    scanner.finish()
}

} // verus!
