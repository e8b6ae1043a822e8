//! The splitter: one forward pass over a dump that cuts it into one file per
//! table. Each file holds the shared preamble, a blank line, the table's
//! segment and the shared postamble.

use crate::markers::{
    ends_table, extract_table_name, is_table_end, is_table_start, lemma_start_is_not_end,
    starts_table, table_name,
};
use crate::scan::{
    last_table_end_after, lemma_last_table_end_is_greatest, lemma_last_table_end_push,
    postamble_lines, preamble_lines, scan_sql_dump,
};
use crate::text::{join, lemma_terminated_push, terminated};
use vstd::prelude::*;

verus! {

/// The file written for one table.
#[derive(Debug, PartialEq, Eq)]
pub struct TableFile {
    /// The table's name, as quoted on the line that starts its segment.
    pub name: String,
    /// All that the file holds.
    pub content: String,
}

/// A table's file as plain text.
pub struct TableFileView {
    pub name: Seq<char>,
    pub content: Seq<char>,
}

impl View for TableFile {
    type V = TableFileView;

    open spec fn view(&self) -> TableFileView {
        TableFileView { name: self.name@, content: self.content@ }
    }
}

impl DeepView for TableFile {
    type V = TableFileView;

    open spec fn deep_view(&self) -> TableFileView {
        self@
    }
}

/// What a table's file holds before its postamble: the preamble, a blank
/// line, and the segment's lines, each followed by a line feed.
pub open spec fn file_head(segment: Seq<Seq<char>>, preamble: Seq<char>) -> Seq<char> {
    preamble + "\n\n"@ + terminated(segment)
}

/// The file of the table whose segment is `segment`. The segment's first line
/// names the table.
pub open spec fn table_file(
    segment: Seq<Seq<char>>,
    preamble: Seq<char>,
    postamble: Seq<char>,
) -> TableFileView
    recommends
        segment.len() > 0,
{
    TableFileView {
        name: table_name(segment[0]),
        content: file_head(segment, preamble) + postamble,
    }
}

/// The position of the last line that starts a table, or -1 if none does.
pub open spec fn last_table_start(lines: Seq<Seq<char>>) -> int
    decreases lines.len(),
{
    if lines.len() == 0 {
        -1
    } else if is_table_start(lines.last()) {
        lines.len() - 1
    } else {
        last_table_start(lines.drop_last())
    }
}

/// The segment that is still open once `lines` have been read: the lines from
/// the last table start on, unless a table end follows it.
pub open spec fn open_segment(lines: Seq<Seq<char>>) -> Option<Seq<Seq<char>>> {
    let start = last_table_start(lines);
    if start >= 0 && last_table_end_after(lines, start) < 0 {
        Some(lines.skip(start))
    } else {
        None
    }
}

/// The file that reading `line` after `lines` completes, if it completes one:
/// a table start closes the open segment before it, a table end closes the
/// open segment with it.
pub open spec fn closed_by(
    lines: Seq<Seq<char>>,
    line: Seq<char>,
    preamble: Seq<char>,
    postamble: Seq<char>,
) -> Option<TableFileView> {
    match open_segment(lines) {
        Some(segment) => if is_table_start(line) {
            Some(table_file(segment, preamble, postamble))
        } else if is_table_end(line) {
            Some(table_file(segment.push(line), preamble, postamble))
        } else {
            None
        },
        None => None,
    }
}

/// The file of the segment that is still open once `lines` have been read.
pub open spec fn open_file(
    lines: Seq<Seq<char>>,
    preamble: Seq<char>,
    postamble: Seq<char>,
) -> Option<TableFileView> {
    match open_segment(lines) {
        Some(segment) => Some(table_file(segment, preamble, postamble)),
        None => None,
    }
}

/// `last_table_start` finds the greatest position of a table start.
pub proof fn lemma_last_table_start_is_greatest(lines: Seq<Seq<char>>)
    ensures
        -1 <= last_table_start(lines) < lines.len(),
        last_table_start(lines) >= 0 ==> is_table_start(lines[last_table_start(lines)]),
        forall|i: int| last_table_start(lines) < i < lines.len() ==> !is_table_start(lines[i]),
    decreases lines.len(),
{
    if lines.len() > 0 && !is_table_start(lines.last()) {
        lemma_last_table_start_is_greatest(lines.drop_last());
        let found = last_table_start(lines.drop_last());
        assert forall|i: int| found < i < lines.len() implies !is_table_start(lines[i]) by {
            if i < lines.len() - 1 {
                assert(lines.drop_last()[i] == lines[i]);
            }
        }
        if found >= 0 {
            assert(lines.drop_last()[found] == lines[found]);
        }
    }
}

/// What one more line does to the open segment: a table start opens a new
/// one, a table end closes it, any other line is added to it.
pub proof fn lemma_open_segment_push(lines: Seq<Seq<char>>, line: Seq<char>)
    ensures
        open_segment(lines.push(line)) == if is_table_start(line) {
            Some(seq![line])
        } else if is_table_end(line) {
            None
        } else {
            match open_segment(lines) {
                Some(segment) => Some(segment.push(line)),
                None => None,
            }
        },
{
    let longer = lines.push(line);
    assert(longer.drop_last() =~= lines);
    lemma_last_table_start_is_greatest(lines);
    if is_table_start(line) {
        assert(longer.skip(lines.len() as int) =~= seq![line]);
    } else {
        let start = last_table_start(lines);
        lemma_last_table_end_push(lines, start, line);
        if start >= 0 && !is_table_end(line) {
            assert(longer.skip(start) =~= lines.skip(start).push(line));
        }
    }
}

/// A splitter that is fed a dump line by line and hands out each table's
/// file as soon as the table's segment is closed.
pub struct Splitter {
    preamble: String,
    postamble: String,
    current: Option<TableFile>,
    seen: Ghost<Seq<Seq<char>>>,
}

/// A splitter as plain text: what it was made with, and what it has read.
pub struct SplitterView {
    /// The preamble that every file starts with.
    pub preamble: Seq<char>,
    /// The postamble that every file ends with.
    pub postamble: Seq<char>,
    /// The lines fed so far, in order.
    pub lines: Seq<Seq<char>>,
}

impl View for Splitter {
    type V = SplitterView;

    closed spec fn view(&self) -> SplitterView {
        SplitterView { preamble: self.preamble@, postamble: self.postamble@, lines: self.seen@ }
    }
}

impl Splitter {
    #[verifier::type_invariant]
    spec fn consistent(self) -> bool {
        match open_segment(self.seen@) {
            Some(segment) => self.current matches Some(file) && file.name@ == table_name(
                segment[0],
            ) && file.content@ == file_head(segment, self.preamble@),
            None => self.current is None,
        }
    }

    /// A splitter that has read nothing.
    pub fn new(preamble: &str, postamble: &str) -> (splitter: Splitter)
        ensures
            splitter@ == (SplitterView {
                preamble: preamble@,
                postamble: postamble@,
                lines: Seq::empty(),
            }),
    {
        Splitter {
            preamble: preamble.to_owned(),
            postamble: postamble.to_owned(),
            current: None,
            seen: Ghost(Seq::empty()),
        }
    }

    /// Reads the next line of the dump, and returns the file that the line
    /// completes, if it completes one.
    pub fn feed(&mut self, line: &str) -> (closed: Option<TableFile>)
        ensures
            final(self)@ == (SplitterView { lines: old(self)@.lines.push(line@), ..old(self)@ }),
            closed.deep_view() == closed_by(
                old(self)@.lines,
                line@,
                old(self)@.preamble,
                old(self)@.postamble,
            ),
    {
        proof {
            use_type_invariant(&*self);
        }
        let mut state = Splitter::new("", "");
        std::mem::swap(self, &mut state);
        let Splitter { preamble, postamble, current, seen } = state;
        let ghost before = seen@;
        proof {
            lemma_open_segment_push(before, line@);
            lemma_start_is_not_end(line@);
            lemma_last_table_start_is_greatest(before);
        }
        let mut closed: Option<TableFile> = None;
        let next: Option<TableFile>;
        if starts_table(line) {
            match current {
                Some(file) => {
                    let mut file = file;
                    file.content.append(postamble.as_str());
                    closed = Some(file);
                },
                None => {},
            }
            let name = extract_table_name(line);
            let mut content = preamble.clone();
            content.append("\n\n");
            content.append(line);
            content.append("\n");
            proof {
                lemma_terminated_push(Seq::empty(), line@);
                assert(Seq::<Seq<char>>::empty().push(line@) =~= seq![line@]);
                assert(content@ =~= file_head(seq![line@], preamble@));
            }
            next = Some(TableFile { name, content });
        } else {
            match current {
                Some(file) => {
                    let mut file = file;
                    let ghost segment = open_segment(before)->0;
                    file.content.append(line);
                    file.content.append("\n");
                    proof {
                        lemma_terminated_push(segment, line@);
                        assert(segment.push(line@)[0] == segment[0]);
                        assert(file.content@ =~= file_head(segment.push(line@), preamble@));
                    }
                    if ends_table(line) {
                        file.content.append(postamble.as_str());
                        closed = Some(file);
                        next = None;
                    } else {
                        next = Some(file);
                    }
                },
                None => {
                    next = None;
                },
            }
        }
        *self = Splitter { preamble, postamble, current: next, seen: Ghost(before.push(line@)) };
        closed
    }

    /// Ends the dump, and returns the file of the segment that was still
    /// open, if one was.
    pub fn finish(self) -> (closed: Option<TableFile>)
        ensures
            closed.deep_view() == open_file(self@.lines, self@.preamble, self@.postamble),
    {
        proof {
            use_type_invariant(&self);
        }
        let Splitter { preamble, postamble, current, seen } = self;
        match current {
            Some(file) => {
                let mut file = file;
                file.content.append(postamble.as_str());
                Some(file)
            },
            None => None,
        }
    }
}

/// Where a segment stops, seen from position `from` inside it: before the
/// next line that starts a table, or behind the next line that ends one,
/// whichever comes first, or where the lines end.
pub open spec fn segment_stop(lines: Seq<Seq<char>>, from: int) -> int
    recommends
        0 <= from,
    decreases lines.len() - from,
{
    if from >= lines.len() {
        lines.len() as int
    } else if is_table_start(lines[from]) {
        from
    } else if is_table_end(lines[from]) {
        from + 1
    } else {
        segment_stop(lines, from + 1)
    }
}

/// The segment of the table that starts at position `start`.
pub open spec fn segment_at(lines: Seq<Seq<char>>, start: int) -> Seq<Seq<char>> {
    lines.subrange(start, segment_stop(lines, start + 1))
}

/// The files of the tables that start at position `from` or later, in the
/// order of the dump.
pub open spec fn table_files_from(
    lines: Seq<Seq<char>>,
    from: int,
    preamble: Seq<char>,
    postamble: Seq<char>,
) -> Seq<TableFileView>
    recommends
        0 <= from,
    decreases lines.len() - from,
{
    if from >= lines.len() {
        Seq::empty()
    } else if is_table_start(lines[from]) {
        seq![table_file(segment_at(lines, from), preamble, postamble)] + table_files_from(
            lines,
            from + 1,
            preamble,
            postamble,
        )
    } else {
        table_files_from(lines, from + 1, preamble, postamble)
    }
}

/// The files that a dump is split into: one for each line that starts a
/// table, in the order of the dump, holding the segment that starts there.
pub open spec fn table_files(
    lines: Seq<Seq<char>>,
    preamble: Seq<char>,
    postamble: Seq<char>,
) -> Seq<TableFileView> {
    table_files_from(lines, 0, preamble, postamble)
}

/// No file, or the one file.
pub open spec fn zero_or_one(file: Option<TableFileView>) -> Seq<TableFileView> {
    match file {
        Some(file) => seq![file],
        None => Seq::empty(),
    }
}

/// The files completed while `lines` are read, in the order in which they
/// are completed.
pub open spec fn closed_files(
    lines: Seq<Seq<char>>,
    preamble: Seq<char>,
    postamble: Seq<char>,
) -> Seq<TableFileView>
    decreases lines.len(),
{
    if lines.len() == 0 {
        Seq::empty()
    } else {
        closed_files(lines.drop_last(), preamble, postamble) + zero_or_one(
            closed_by(lines.drop_last(), lines.last(), preamble, postamble),
        )
    }
}

/// No line from position `from` on starts or ends a table.
pub open spec fn unmarked_from(lines: Seq<Seq<char>>, from: int) -> bool {
    forall|i: int| from <= i < lines.len() ==> !is_table_start(lines[i]) && !is_table_end(lines[i])
}

/// A segment is open exactly when no marker follows the last table start.
pub proof fn lemma_open_segment_unmarked(lines: Seq<Seq<char>>)
    ensures
        open_segment(lines) is Some <==> last_table_start(lines) >= 0 && unmarked_from(
            lines,
            last_table_start(lines) + 1,
        ),
        open_segment(lines) is Some ==> open_segment(lines)->0 == lines.skip(
            last_table_start(lines),
        ),
{
    let start = last_table_start(lines);
    lemma_last_table_start_is_greatest(lines);
    lemma_last_table_end_is_greatest(lines, start);
}

/// What one more line does to the place where a segment stops.
pub proof fn lemma_segment_stop_push(lines: Seq<Seq<char>>, line: Seq<char>, from: int)
    requires
        0 <= from <= lines.len(),
    ensures
        unmarked_from(lines, from) ==> segment_stop(lines, from) == lines.len() && segment_stop(
            lines.push(line),
            from,
        ) == if is_table_start(line) {
            lines.len() as int
        } else {
            lines.len() as int + 1
        },
        !unmarked_from(lines, from) ==> segment_stop(lines.push(line), from) == segment_stop(
            lines,
            from,
        ) && from <= segment_stop(lines, from) <= lines.len(),
    decreases lines.len() - from,
{
    let longer = lines.push(line);
    if from < lines.len() {
        assert(longer[from] == lines[from]);
        if !is_table_start(lines[from]) && !is_table_end(lines[from]) {
            lemma_segment_stop_push(lines, line, from + 1);
            if unmarked_from(lines, from + 1) {
                assert(unmarked_from(lines, from));
            }
            if unmarked_from(lines, from) {
                assert(unmarked_from(lines, from + 1));
            }
        }
    } else {
        assert(longer[from] == line);
        assert(segment_stop(longer, from + 1) == longer.len());
    }
}

/// Where no table starts, no file is made.
pub proof fn lemma_no_table_start_no_files(
    lines: Seq<Seq<char>>,
    from: int,
    preamble: Seq<char>,
    postamble: Seq<char>,
)
    requires
        0 <= from,
        forall|i: int| from <= i < lines.len() ==> !is_table_start(lines[i]),
    ensures
        table_files_from(lines, from, preamble, postamble) == Seq::<TableFileView>::empty(),
    decreases lines.len() - from,
{
    if from < lines.len() {
        lemma_no_table_start_no_files(lines, from + 1, preamble, postamble);
    }
}

/// What one more line does to the files of the tables that start at `from`
/// or later: a table start adds a file, any other line is added to the last
/// file if its segment is still open.
pub proof fn lemma_table_files_from_push(
    lines: Seq<Seq<char>>,
    line: Seq<char>,
    from: int,
    preamble: Seq<char>,
    postamble: Seq<char>,
)
    requires
        0 <= from <= lines.len(),
    ensures
        is_table_start(line) ==> table_files_from(lines.push(line), from, preamble, postamble)
            == table_files_from(lines, from, preamble, postamble).push(
            table_file(seq![line], preamble, postamble),
        ),
        !is_table_start(line) && open_segment(lines) is Some && last_table_start(lines) >= from
            ==> table_files_from(lines, from, preamble, postamble).len() > 0 && table_files_from(
            lines.push(line),
            from,
            preamble,
            postamble,
        ) == table_files_from(lines, from, preamble, postamble).drop_last().push(
            table_file(open_segment(lines)->0.push(line), preamble, postamble),
        ),
        !is_table_start(line) && !(open_segment(lines) is Some && last_table_start(lines) >= from)
            ==> table_files_from(lines.push(line), from, preamble, postamble) == table_files_from(
            lines,
            from,
            preamble,
            postamble,
        ),
    decreases lines.len() - from,
{
    let longer = lines.push(line);
    let files = table_files_from(lines, from, preamble, postamble);
    let longer_files = table_files_from(longer, from, preamble, postamble);
    lemma_last_table_start_is_greatest(lines);
    lemma_open_segment_unmarked(lines);
    if from == lines.len() {
        assert(longer[from] == line);
        assert(table_files_from(longer, from + 1, preamble, postamble) =~= Seq::empty());
        if is_table_start(line) {
            assert(segment_stop(longer, from + 1) == longer.len());
            assert(segment_at(longer, from) =~= seq![line]);
            assert(longer_files =~= files.push(table_file(seq![line], preamble, postamble)));
        }
    } else {
        assert(longer[from] == lines[from]);
        lemma_table_files_from_push(lines, line, from + 1, preamble, postamble);
        let rest = table_files_from(lines, from + 1, preamble, postamble);
        let longer_rest = table_files_from(longer, from + 1, preamble, postamble);
        if is_table_start(lines[from]) {
            lemma_segment_stop_push(lines, line, from + 1);
            let segment = segment_at(lines, from);
            let longer_segment = segment_at(longer, from);
            let last = last_table_start(lines);
            if is_table_start(line) {
                assert(longer_segment =~= segment);
                assert(longer_files =~= files.push(table_file(seq![line], preamble, postamble)));
            } else if open_segment(lines) is Some {
                let open = open_segment(lines)->0;
                if last == from {
                    assert(unmarked_from(lines, from + 1));
                    assert(longer_segment =~= segment.push(line));
                    assert(segment =~= open);
                    lemma_no_table_start_no_files(lines, from + 1, preamble, postamble);
                    assert(longer_rest == rest);
                    assert(files =~= seq![table_file(segment, preamble, postamble)]);
                    assert(longer_files =~= files.drop_last().push(
                        table_file(open.push(line), preamble, postamble),
                    ));
                } else {
                    assert(is_table_start(lines[last]));
                    assert(!unmarked_from(lines, from + 1));
                    assert(longer_segment =~= segment);
                    assert(longer_files =~= files.drop_last().push(
                        table_file(open.push(line), preamble, postamble),
                    ));
                }
            } else {
                if last == from {
                    assert(!unmarked_from(lines, from + 1));
                } else {
                    assert(is_table_start(lines[last]));
                    assert(!unmarked_from(lines, from + 1));
                }
                assert(longer_segment =~= segment);
                assert(longer_files =~= files);
            }
        } else {
            assert(last_table_start(lines) != from);
        }
    }
}

/// Read line by line, a dump gives the files that it is split into: the
/// files completed on the way, then the file of the segment still open at
/// the end.
pub proof fn lemma_streamed_files(
    lines: Seq<Seq<char>>,
    preamble: Seq<char>,
    postamble: Seq<char>,
)
    ensures
        closed_files(lines, preamble, postamble) + zero_or_one(
            open_file(lines, preamble, postamble),
        ) == table_files(lines, preamble, postamble),
    decreases lines.len(),
{
    let streamed = closed_files(lines, preamble, postamble) + zero_or_one(
        open_file(lines, preamble, postamble),
    );
    if lines.len() == 0 {
        assert(streamed =~= table_files(lines, preamble, postamble));
    } else {
        let shorter = lines.drop_last();
        let line = lines.last();
        assert(shorter.push(line) =~= lines);
        lemma_streamed_files(shorter, preamble, postamble);
        lemma_table_files_from_push(shorter, line, 0, preamble, postamble);
        lemma_open_segment_push(shorter, line);
        lemma_start_is_not_end(line);
        lemma_last_table_start_is_greatest(shorter);
        assert(streamed =~= table_files(lines, preamble, postamble));
    }
}

/// Splits a whole dump, given as its lines, into one file per table. Every
/// file starts with `preamble` and ends with `postamble`.
pub fn split_sql_dump(
    lines: &Vec<String>,
    preamble: &str,
    postamble: &str,
) -> (files: Vec<TableFile>)
    ensures
        files.deep_view() == table_files(lines.deep_view(), preamble@, postamble@),
{
    let mut splitter = Splitter::new(preamble, postamble);
    let mut files: Vec<TableFile> = Vec::new();
    let mut at: usize = 0;
    while at < lines.len()
        invariant
            at <= lines.len(),
            splitter@.preamble == preamble@,
            splitter@.postamble == postamble@,
            splitter@.lines == lines.deep_view().take(at as int),
            files.deep_view() == closed_files(splitter@.lines, preamble@, postamble@),
        decreases lines.len() - at,
    {
        let ghost read = splitter@.lines;
        let ghost made = files.deep_view();
        let closed = splitter.feed(lines[at].as_str());
        proof {
            assert(lines.deep_view().take(at + 1) =~= read.push(lines[at as int]@));
            assert(read.push(lines[at as int]@).drop_last() =~= read);
        }
        match closed {
            Some(file) => {
                files.push(file);
                proof {
                    assert(files.deep_view() =~= made.push(file@));
                    assert(made.push(file@) =~= made + zero_or_one(Some(file@)));
                }
            },
            None => {
                proof {
                    assert(made =~= made + zero_or_one(None));
                }
            },
        }
        at = at + 1;
    }
    let ghost read = splitter@.lines;
    let ghost made = files.deep_view();
    proof {
        assert(lines.deep_view().take(at as int) =~= lines.deep_view());
        lemma_streamed_files(read, preamble@, postamble@);
    }
    match splitter.finish() {
        Some(file) => {
            files.push(file);
            proof {
                assert(files.deep_view() =~= made.push(file@));
                assert(made.push(file@) =~= made + zero_or_one(Some(file@)));
            }
        },
        None => {
            proof {
                assert(made =~= made + zero_or_one(None));
            }
        },
    }
    files
}

/// Splits a whole dump, given as its lines: finds the preamble and the
/// postamble that its tables share, then cuts it into one file per table.
pub fn split_dump(lines: &Vec<String>) -> (files: Vec<TableFile>)
    ensures
        files.deep_view() == table_files(
            lines.deep_view(),
            join(preamble_lines(lines.deep_view()), "\n"@),
            join(postamble_lines(lines.deep_view()), "\n"@),
        ),
{
    let (preamble, postamble) = scan_sql_dump(lines);
    split_sql_dump(lines, preamble.as_str(), postamble.as_str())
}

} // verus!
