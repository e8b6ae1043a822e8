//! What splitting does to dumps of a known shape: a dump with one table, and
//! a dump whose tables are each closed by a line that ends them.

use crate::markers::{is_table_end, is_table_start, lemma_start_is_not_end};
use crate::scan::{
    first_table_start, last_table_end, lemma_last_table_end_is_greatest,
    lemma_next_table_start_unique, postamble_lines, preamble_lines,
};
use crate::split::{
    closed_by, closed_files, lemma_no_table_start_no_files, lemma_open_segment_push,
    lemma_streamed_files, open_file, open_segment, segment_at, table_file, table_files,
    table_files_from, zero_or_one, TableFileView,
};
use crate::text::{join, lemma_terminated_concat, terminated};
use vstd::prelude::*;

verus! {

/// A segment that is closed: its first line starts a table, its last line
/// ends one, and no line between them does either.
pub open spec fn is_closed_segment(segment: Seq<Seq<char>>) -> bool {
    &&& segment.len() >= 2
    &&& is_table_start(segment[0])
    &&& is_table_end(segment.last())
    &&& forall|i: int| 0 < i < segment.len() ==> !is_table_start(segment[i])
    &&& forall|i: int| 0 <= i < segment.len() - 1 ==> !is_table_end(segment[i])
}

/// The files of the given segments, in their order.
pub open spec fn files_of(
    segments: Seq<Seq<Seq<char>>>,
    preamble: Seq<char>,
    postamble: Seq<char>,
) -> Seq<TableFileView> {
    Seq::new(segments.len(), |k: int| table_file(segments[k], preamble, postamble))
}

/// What is left of a file's content once the preamble and the blank line
/// before the segment, and the postamble behind it, are taken away.
pub open spec fn file_body(
    file: TableFileView,
    preamble: Seq<char>,
    postamble: Seq<char>,
) -> Seq<char> {
    file.content.subrange(
        (preamble.len() + "\n\n"@.len()) as int,
        file.content.len() - postamble.len(),
    )
}

/// The bodies of the files, one after the other.
pub open spec fn bodies(
    files: Seq<TableFileView>,
    preamble: Seq<char>,
    postamble: Seq<char>,
) -> Seq<char>
    decreases files.len(),
{
    if files.len() == 0 {
        Seq::empty()
    } else {
        bodies(files.drop_last(), preamble, postamble) + file_body(
            files.last(),
            preamble,
            postamble,
        )
    }
}

/// The body of a table's file is the table's segment, each line followed by
/// a line feed.
pub proof fn lemma_file_body(segment: Seq<Seq<char>>, preamble: Seq<char>, postamble: Seq<char>)
    ensures
        file_body(table_file(segment, preamble, postamble), preamble, postamble) == terminated(
            segment,
        ),
{
    let content = table_file(segment, preamble, postamble).content;
    assert(content =~= preamble + "\n\n"@ + terminated(segment) + postamble);
    assert(file_body(table_file(segment, preamble, postamble), preamble, postamble)
        =~= terminated(segment));
}

/// A dump in which exactly one line starts a table is split into exactly
/// one file: the preamble, a blank line, the segment that starts at that
/// line, and the postamble.
pub proof fn lemma_single_table(
    lines: Seq<Seq<char>>,
    start: int,
    preamble: Seq<char>,
    postamble: Seq<char>,
)
    requires
        0 <= start < lines.len(),
        is_table_start(lines[start]),
        forall|i: int| 0 <= i < lines.len() && i != start ==> !is_table_start(lines[i]),
    ensures
        table_files(lines, preamble, postamble) == seq![
            table_file(segment_at(lines, start), preamble, postamble),
        ],
        table_files(lines, preamble, postamble)[0].content == preamble + "\n\n"@ + terminated(
            segment_at(lines, start),
        ) + postamble,
{
    lemma_single_table_from(lines, start, 0, preamble, postamble);
}

/// Seen from any position at or before the one line that starts a table,
/// the dump gives that table's file and no other.
proof fn lemma_single_table_from(
    lines: Seq<Seq<char>>,
    start: int,
    from: int,
    preamble: Seq<char>,
    postamble: Seq<char>,
)
    requires
        0 <= from <= start < lines.len(),
        is_table_start(lines[start]),
        forall|i: int| 0 <= i < lines.len() && i != start ==> !is_table_start(lines[i]),
    ensures
        table_files_from(lines, from, preamble, postamble) == seq![
            table_file(segment_at(lines, start), preamble, postamble),
        ],
    decreases start - from,
{
    if from == start {
        lemma_no_table_start_no_files(lines, start + 1, preamble, postamble);
        assert(table_files_from(lines, from, preamble, postamble) =~= seq![
            table_file(segment_at(lines, start), preamble, postamble),
        ]);
    } else {
        lemma_single_table_from(lines, start, from + 1, preamble, postamble);
    }
}

/// Reading lines of which none starts a table, while no segment is open,
/// completes no file and opens no segment.
pub proof fn lemma_read_outside_segments(
    read: Seq<Seq<char>>,
    more: Seq<Seq<char>>,
    preamble: Seq<char>,
    postamble: Seq<char>,
)
    requires
        open_segment(read) is None,
        forall|i: int| 0 <= i < more.len() ==> !is_table_start(more[i]),
    ensures
        open_segment(read + more) is None,
        closed_files(read + more, preamble, postamble) == closed_files(
            read,
            preamble,
            postamble,
        ),
    decreases more.len(),
{
    if more.len() == 0 {
        assert(read + more =~= read);
    } else {
        let shorter = more.drop_last();
        let line = more.last();
        lemma_read_outside_segments(read, shorter, preamble, postamble);
        assert(read + more =~= (read + shorter).push(line));
        assert((read + more).drop_last() =~= read + shorter);
        lemma_open_segment_push(read + shorter, line);
        assert(zero_or_one(closed_by(read + shorter, line, preamble, postamble))
            =~= Seq::<TableFileView>::empty());
        assert(closed_files(read + more, preamble, postamble) =~= closed_files(
            read,
            preamble,
            postamble,
        ));
    }
}

/// Reading the first lines of a closed segment, but not its last, while no
/// segment is open, completes no file and leaves those lines as the open
/// segment.
proof fn lemma_read_segment_prefix(
    read: Seq<Seq<char>>,
    segment: Seq<Seq<char>>,
    length: int,
    preamble: Seq<char>,
    postamble: Seq<char>,
)
    requires
        open_segment(read) is None,
        is_closed_segment(segment),
        1 <= length < segment.len(),
    ensures
        open_segment(read + segment.take(length)) == Some(segment.take(length)),
        closed_files(read + segment.take(length), preamble, postamble) == closed_files(
            read,
            preamble,
            postamble,
        ),
    decreases length,
{
    let line = segment[length - 1];
    let now = read + segment.take(length);
    if length == 1 {
        assert(now =~= read.push(line));
        assert(now.drop_last() =~= read);
        lemma_open_segment_push(read, line);
        assert(segment.take(1) =~= seq![line]);
        assert(zero_or_one(closed_by(read, line, preamble, postamble))
            =~= Seq::<TableFileView>::empty());
        assert(closed_files(now, preamble, postamble) =~= closed_files(
            read,
            preamble,
            postamble,
        ));
    } else {
        let before = read + segment.take(length - 1);
        lemma_read_segment_prefix(read, segment, length - 1, preamble, postamble);
        assert(now =~= before.push(line));
        assert(now.drop_last() =~= before);
        lemma_open_segment_push(before, line);
        assert(segment.take(length) =~= segment.take(length - 1).push(line));
        assert(zero_or_one(closed_by(before, line, preamble, postamble))
            =~= Seq::<TableFileView>::empty());
        assert(closed_files(now, preamble, postamble) =~= closed_files(
            read,
            preamble,
            postamble,
        ));
    }
}

/// Reading a closed segment, while no segment is open, completes the
/// segment's file and leaves no segment open.
pub proof fn lemma_read_closed_segment(
    read: Seq<Seq<char>>,
    segment: Seq<Seq<char>>,
    preamble: Seq<char>,
    postamble: Seq<char>,
)
    requires
        open_segment(read) is None,
        is_closed_segment(segment),
    ensures
        open_segment(read + segment) is None,
        closed_files(read + segment, preamble, postamble) == closed_files(
            read,
            preamble,
            postamble,
        ).push(table_file(segment, preamble, postamble)),
{
    let length = segment.len() - 1;
    let line = segment.last();
    let before = read + segment.take(length);
    lemma_read_segment_prefix(read, segment, length, preamble, postamble);
    lemma_start_is_not_end(line);
    assert(read + segment =~= before.push(line));
    assert((read + segment).drop_last() =~= before);
    lemma_open_segment_push(before, line);
    assert(segment.take(length).push(line) =~= segment);
    assert(closed_files(read + segment, preamble, postamble) =~= closed_files(
        read,
        preamble,
        postamble,
    ).push(table_file(segment, preamble, postamble)));
}

/// Reading closed segments one after the other, while no segment is open,
/// completes their files in their order and leaves no segment open.
pub proof fn lemma_read_closed_segments(
    read: Seq<Seq<char>>,
    segments: Seq<Seq<Seq<char>>>,
    preamble: Seq<char>,
    postamble: Seq<char>,
)
    requires
        open_segment(read) is None,
        forall|k: int| 0 <= k < segments.len() ==> is_closed_segment(#[trigger] segments[k]),
    ensures
        open_segment(read + segments.flatten()) is None,
        closed_files(read + segments.flatten(), preamble, postamble) == closed_files(
            read,
            preamble,
            postamble,
        ) + files_of(segments, preamble, postamble),
    decreases segments.len(),
{
    if segments.len() == 0 {
        assert(segments.flatten() =~= Seq::<Seq<char>>::empty());
        assert(read + segments.flatten() =~= read);
        assert(closed_files(read, preamble, postamble) + files_of(segments, preamble, postamble)
            =~= closed_files(read, preamble, postamble));
    } else {
        let earlier = segments.drop_last();
        let segment = segments.last();
        lemma_read_closed_segments(read, earlier, preamble, postamble);
        assert(earlier.push(segment) =~= segments);
        earlier.lemma_flatten_push(segment);
        assert(read + segments.flatten() =~= (read + earlier.flatten()) + segment);
        lemma_read_closed_segment(read + earlier.flatten(), segment, preamble, postamble);
        assert(files_of(segments, preamble, postamble) =~= files_of(
            earlier,
            preamble,
            postamble,
        ).push(table_file(segment, preamble, postamble)));
        assert(closed_files(read + segments.flatten(), preamble, postamble) =~= closed_files(
            read,
            preamble,
            postamble,
        ) + files_of(segments, preamble, postamble));
    }
}

/// The bodies of the files of the given segments, one after the other, are
/// the segments' lines in their order, each followed by a line feed.
pub proof fn lemma_bodies_of_segments(
    segments: Seq<Seq<Seq<char>>>,
    preamble: Seq<char>,
    postamble: Seq<char>,
)
    ensures
        bodies(files_of(segments, preamble, postamble), preamble, postamble) == terminated(
            segments.flatten(),
        ),
    decreases segments.len(),
{
    let files = files_of(segments, preamble, postamble);
    if segments.len() == 0 {
        assert(segments.flatten() =~= Seq::<Seq<char>>::empty());
    } else {
        let earlier = segments.drop_last();
        let segment = segments.last();
        lemma_bodies_of_segments(earlier, preamble, postamble);
        assert(earlier.push(segment) =~= segments);
        earlier.lemma_flatten_push(segment);
        lemma_terminated_concat(earlier.flatten(), segment);
        lemma_file_body(segment, preamble, postamble);
        assert(files.drop_last() =~= files_of(earlier, preamble, postamble));
        assert(files.last() == table_file(segment, preamble, postamble));
    }
}

/// A dump made of lines of which none starts a table, then any number of
/// closed segments, then again lines of which none starts a table, is split
/// into as many files as it has segments: one file for each segment, in the
/// order of the dump. The bodies of the files, one after the other, are the
/// segments' lines as the dump has them.
pub proof fn lemma_closed_segments(
    head: Seq<Seq<char>>,
    segments: Seq<Seq<Seq<char>>>,
    tail: Seq<Seq<char>>,
    preamble: Seq<char>,
    postamble: Seq<char>,
)
    requires
        forall|i: int| 0 <= i < head.len() ==> !is_table_start(head[i]),
        forall|k: int| 0 <= k < segments.len() ==> is_closed_segment(#[trigger] segments[k]),
        forall|i: int| 0 <= i < tail.len() ==> !is_table_start(tail[i]),
    ensures
        table_files(head + segments.flatten() + tail, preamble, postamble) == files_of(
            segments,
            preamble,
            postamble,
        ),
        table_files(head + segments.flatten() + tail, preamble, postamble).len()
            == segments.len(),
        bodies(
            table_files(head + segments.flatten() + tail, preamble, postamble),
            preamble,
            postamble,
        ) == terminated(segments.flatten()),
{
    let nothing = Seq::<Seq<char>>::empty();
    let lines = head + segments.flatten() + tail;
    lemma_read_outside_segments(nothing, head, preamble, postamble);
    assert(nothing + head =~= head);
    lemma_read_closed_segments(head, segments, preamble, postamble);
    lemma_read_outside_segments(head + segments.flatten(), tail, preamble, postamble);
    lemma_streamed_files(lines, preamble, postamble);
    assert(zero_or_one(open_file(lines, preamble, postamble)) =~= Seq::<TableFileView>::empty());
    assert(closed_files(nothing, preamble, postamble) =~= Seq::<TableFileView>::empty());
    assert(table_files(lines, preamble, postamble) =~= files_of(segments, preamble, postamble));
    lemma_bodies_of_segments(segments, preamble, postamble);
}

/// In a dump made of lines of which none starts a table, then one or more
/// closed segments, then lines of which none starts or ends a table, the
/// preamble is what stands before the segments and the postamble is what
/// stands behind them.
pub proof fn lemma_scan_closed_segments(
    head: Seq<Seq<char>>,
    segments: Seq<Seq<Seq<char>>>,
    tail: Seq<Seq<char>>,
)
    requires
        segments.len() >= 1,
        forall|i: int| 0 <= i < head.len() ==> !is_table_start(head[i]),
        forall|k: int| 0 <= k < segments.len() ==> is_closed_segment(#[trigger] segments[k]),
        forall|i: int| 0 <= i < tail.len() ==> !is_table_start(tail[i]) && !is_table_end(tail[i]),
    ensures
        preamble_lines(head + segments.flatten() + tail) == head,
        postamble_lines(head + segments.flatten() + tail) == tail,
{
    let tables = segments.flatten();
    let lines = head + tables + tail;
    let first = head.len() as int;
    let last = head.len() + tables.len() - 1;
    assert(is_closed_segment(segments[0]));
    assert(is_closed_segment(segments[segments.len() - 1]));
    assert(tables =~= segments.first() + segments.drop_first().flatten());
    assert(segments.drop_last().push(segments.last()) =~= segments);
    segments.drop_last().lemma_flatten_push(segments.last());
    assert(tables =~= segments.drop_last().flatten() + segments.last());
    assert(tables.len() >= 2);
    assert(lines[first] == segments[0][0]);
    assert(lines[last] == segments.last().last());
    assert forall|i: int| 0 <= i < first implies !is_table_start(lines[i]) by {
        assert(lines[i] == head[i]);
    }
    lemma_next_table_start_unique(lines, 0, first);
    assert(first_table_start(lines) == first);
    assert(lines.take(first) =~= head);
    lemma_last_table_end_is_greatest(lines, first);
    let found = last_table_end(lines);
    if found > last {
        assert(lines[found] == tail[found - last - 1]);
    }
    assert(found == last);
    assert(lines.skip(last + 1) =~= tail);
}

/// Split with the preamble and the postamble that the scanner finds in it,
/// such a dump gives one file for each segment: what stands before the
/// segments, a blank line, the segment, and what stands behind the segments.
pub proof fn lemma_split_closed_segments(
    head: Seq<Seq<char>>,
    segments: Seq<Seq<Seq<char>>>,
    tail: Seq<Seq<char>>,
)
    requires
        segments.len() >= 1,
        forall|i: int| 0 <= i < head.len() ==> !is_table_start(head[i]),
        forall|k: int| 0 <= k < segments.len() ==> is_closed_segment(#[trigger] segments[k]),
        forall|i: int| 0 <= i < tail.len() ==> !is_table_start(tail[i]) && !is_table_end(tail[i]),
    ensures
        table_files(
            head + segments.flatten() + tail,
            join(preamble_lines(head + segments.flatten() + tail), "\n"@),
            join(postamble_lines(head + segments.flatten() + tail), "\n"@),
        ) == files_of(segments, join(head, "\n"@), join(tail, "\n"@)),
{
    lemma_scan_closed_segments(head, segments, tail);
    lemma_closed_segments(head, segments, tail, join(head, "\n"@), join(tail, "\n"@));
}

} // verus!
