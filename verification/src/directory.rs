//! The output directory as a map from file names to contents, and what
//! writing the files of a split does to it.

use crate::split::TableFileView;
use vstd::prelude::*;

verus! {

/// The name of the file that holds the table named `table`.
pub open spec fn file_name(table: Seq<char>) -> Seq<char> {
    table + ".sql"@
}

/// The path of the file that holds the table named `table`, inside the
/// directory at `directory`.
pub open spec fn file_path(directory: Seq<char>, table: Seq<char>) -> Seq<char> {
    directory + "/"@ + file_name(table)
}

/// The directory once the files have been written into it in their order.
/// A file replaces an earlier file of the same name.
pub open spec fn written(
    directory: Map<Seq<char>, Seq<char>>,
    files: Seq<TableFileView>,
) -> Map<Seq<char>, Seq<char>>
    decreases files.len(),
{
    if files.len() == 0 {
        directory
    } else {
        written(directory, files.drop_last()).insert(
            file_name(files.last().name),
            files.last().content,
        )
    }
}

/// The position of the last of the files that is written under `name`, or
/// -1 if none is.
pub open spec fn last_written(files: Seq<TableFileView>, name: Seq<char>) -> int
    decreases files.len(),
{
    if files.len() == 0 {
        -1
    } else if file_name(files.last().name) == name {
        files.len() - 1
    } else {
        last_written(files.drop_last(), name)
    }
}

/// No two of the files are for tables of the same name.
pub open spec fn distinct_names(files: Seq<TableFileView>) -> bool {
    forall|i: int, j: int|
        0 <= i < j < files.len() ==> (#[trigger] files[i]).name != (#[trigger] files[j]).name
}

/// `last_written` finds the greatest position of a file of that name.
pub proof fn lemma_last_written_is_greatest(files: Seq<TableFileView>, name: Seq<char>)
    ensures
        -1 <= last_written(files, name) < files.len(),
        last_written(files, name) >= 0 ==> file_name(files[last_written(files, name)].name)
            == name,
        forall|i: int|
            last_written(files, name) < i < files.len() ==> file_name(
                (#[trigger] files[i]).name,
            ) != name,
    decreases files.len(),
{
    if files.len() > 0 && file_name(files.last().name) != name {
        lemma_last_written_is_greatest(files.drop_last(), name);
        let found = last_written(files.drop_last(), name);
        assert forall|i: int| found < i < files.len() implies file_name(
            (#[trigger] files[i]).name,
        ) != name by {
            if i < files.len() - 1 {
                assert(files.drop_last()[i] == files[i]);
            }
        }
        if found >= 0 {
            assert(files.drop_last()[found] == files[found]);
        }
    }
}

/// What the directory holds under `name` once the files have been written:
/// the content of the last file of that name, or what it held before if
/// there is none.
pub proof fn lemma_written_lookup(
    directory: Map<Seq<char>, Seq<char>>,
    files: Seq<TableFileView>,
    name: Seq<char>,
)
    ensures
        written(directory, files).dom().contains(name) <==> last_written(files, name) >= 0
            || directory.dom().contains(name),
        last_written(files, name) >= 0 ==> written(directory, files)[name]
            == files[last_written(files, name)].content,
        last_written(files, name) < 0 ==> written(directory, files)[name] == directory[name],
    decreases files.len(),
{
    if files.len() > 0 {
        lemma_written_lookup(directory, files.drop_last(), name);
        let found = last_written(files.drop_last(), name);
        lemma_last_written_is_greatest(files.drop_last(), name);
        if found >= 0 {
            assert(files.drop_last()[found] == files[found]);
        }
    }
}

/// Writing the same files a second time changes nothing: splitting a dump
/// again into the directory that the first split filled leaves every file
/// as it is.
pub proof fn lemma_written_twice(directory: Map<Seq<char>, Seq<char>>, files: Seq<TableFileView>)
    ensures
        written(written(directory, files), files) == written(directory, files),
{
    let once = written(directory, files);
    let twice = written(once, files);
    assert forall|name: Seq<char>| #[trigger]
        twice.dom().contains(name) <==> once.dom().contains(name) by {
        lemma_written_lookup(directory, files, name);
        lemma_written_lookup(once, files, name);
    }
    assert(twice.dom() =~= once.dom());
    assert forall|name: Seq<char>| #[trigger] once.dom().contains(name) implies twice[name]
        == once[name] by {
        lemma_written_lookup(directory, files, name);
        lemma_written_lookup(once, files, name);
    }
    assert(twice =~= once);
}

/// Two tables have the same file name only if they have the same name.
pub proof fn lemma_file_name_injective(first: Seq<char>, second: Seq<char>)
    requires
        file_name(first) == file_name(second),
    ensures
        first == second,
{
    let suffix = ".sql"@;
    assert((first + suffix).len() == (second + suffix).len());
    assert(first.len() == second.len());
    assert forall|i: int| 0 <= i < first.len() implies first[i] == second[i] by {
        assert((first + suffix)[i] == first[i]);
        assert((second + suffix)[i] == second[i]);
    }
    assert(first =~= second);
}

/// Written into an empty directory, files for tables of distinct names
/// make as many files in the directory.
pub proof fn lemma_written_distinct(files: Seq<TableFileView>)
    requires
        distinct_names(files),
    ensures
        written(Map::empty(), files).dom().finite(),
        written(Map::empty(), files).dom().len() == files.len(),
    decreases files.len(),
{
    let nothing = Map::<Seq<char>, Seq<char>>::empty();
    if files.len() > 0 {
        let earlier = files.drop_last();
        let name = file_name(files.last().name);
        assert forall|i: int, j: int| 0 <= i < j < earlier.len() implies (
        #[trigger] earlier[i]).name != (#[trigger] earlier[j]).name by {
            assert(earlier[i] == files[i] && earlier[j] == files[j]);
        }
        lemma_written_distinct(earlier);
        lemma_written_lookup(nothing, earlier, name);
        lemma_last_written_is_greatest(earlier, name);
        let found = last_written(earlier, name);
        if found >= 0 {
            assert(earlier[found] == files[found]);
            lemma_file_name_injective(files[found].name, files.last().name);
            assert(files[found].name != files[files.len() - 1].name);
        }
        assert(written(nothing, files).dom() =~= written(nothing, earlier).dom().insert(name));
    }
}

/// The path of the file that holds the table named `table`, inside the
/// directory at `directory`.
pub fn table_file_path(directory: &str, table: &str) -> (path: String)
    ensures
        path@ == file_path(directory@, table@),
{
    let mut path = String::from_str(directory);
    path.append("/");
    path.append(table);
    path.append(".sql");
    assert(path@ =~= file_path(directory@, table@));
    path
}

} // verus!
