use multidump::directory::table_file_path;
use multidump::scan::scan_sql_dump;
use multidump::split::{split_dump, split_sql_dump, Splitter, TableFile};
use std::collections::BTreeMap;

fn dump(text: &[&str]) -> Vec<String> {
    text.iter().map(|line| line.to_string()).collect()
}

fn file(name: &str, content: &str) -> TableFile {
    TableFile { name: name.to_string(), content: content.to_string() }
}

fn write_all(directory: &mut BTreeMap<String, String>, files: &[TableFile]) {
    for file in files {
        directory.insert(table_file_path("out", &file.name), file.content.clone());
    }
}

#[test]
fn split_two_tables() {
    let lines = dump(&[
        "PRE1",
        "DROP TABLE `t1`;",
        "INS1",
        "UNLOCK TABLES;",
        "DROP TABLE `t2`;",
        "INS2",
        "UNLOCK TABLES;",
        "POST1",
    ]);
    let (preamble, postamble) = scan_sql_dump(&lines);
    let files = split_sql_dump(&lines, &preamble, &postamble);
    assert_eq!(
        files,
        vec![
            file("t1", "PRE1\n\nDROP TABLE `t1`;\nINS1\nUNLOCK TABLES;\nPOST1"),
            file("t2", "PRE1\n\nDROP TABLE `t2`;\nINS2\nUNLOCK TABLES;\nPOST1"),
        ]
    );
    assert_eq!(split_dump(&lines), files);
    assert_eq!(table_file_path("out", &files[0].name), "out/t1.sql");
    assert_eq!(table_file_path("out", &files[1].name), "out/t2.sql");
}

#[test]
fn split_single_table() {
    let lines = dump(&["H1", "H2", "DROP TABLE `only`;", "A", "B", "UNLOCK TABLES;", "T1", "T2"]);
    let files = split_dump(&lines);
    assert_eq!(files.len(), 1);
    assert_eq!(files[0].name, "only");
    let preamble = "H1\nH2";
    let segment = "DROP TABLE `only`;\nA\nB\nUNLOCK TABLES;\n";
    let postamble = "T1\nT2";
    assert_eq!(files[0].content, format!("{}\n\n{}{}", preamble, segment, postamble));
}

#[test]
fn split_single_table_without_end() {
    let lines = dump(&["H", "DROP TABLE `only`;", "A", "B"]);
    assert_eq!(split_dump(&lines), vec![file("only", "H\n\nDROP TABLE `only`;\nA\nB\n")]);
}

#[test]
fn split_closed_segments_rebuild_the_tables() {
    let lines = dump(&[
        "HEAD",
        "DROP TABLE `a`;",
        "a1",
        "a2",
        "UNLOCK TABLES;",
        "DROP TABLE `b`;",
        "UNLOCK TABLES;",
        "DROP TABLE `c`;",
        "c1",
        "UNLOCK TABLES;",
        "TAIL",
    ]);
    let (preamble, postamble) = scan_sql_dump(&lines);
    let files = split_sql_dump(&lines, &preamble, &postamble);
    assert_eq!(files.len(), 3);
    let names: Vec<&str> = files.iter().map(|file| file.name.as_str()).collect();
    assert_eq!(names, vec!["a", "b", "c"]);
    let mut bodies = String::new();
    for file in &files {
        let head = format!("{}\n\n", preamble);
        assert!(file.content.starts_with(&head));
        assert!(file.content.ends_with(&postamble));
        bodies.push_str(&file.content[head.len()..file.content.len() - postamble.len()]);
    }
    let mut tables = String::new();
    for line in &lines[1..10] {
        tables.push_str(line);
        tables.push('\n');
    }
    assert_eq!(bodies, tables);
}

#[test]
fn split_table_start_closes_the_open_table() {
    let lines = dump(&["DROP TABLE `a`;", "a1", "DROP TABLE `b`;", "b1", "UNLOCK TABLES;"]);
    let files = split_sql_dump(&lines, "P", "Q");
    assert_eq!(
        files,
        vec![
            file("a", "P\n\nDROP TABLE `a`;\na1\nQ"),
            file("b", "P\n\nDROP TABLE `b`;\nb1\nUNLOCK TABLES;\nQ"),
        ]
    );
}

#[test]
fn split_drops_lines_outside_tables() {
    let lines = dump(&[
        "before",
        "UNLOCK TABLES;",
        "DROP TABLE `a`;",
        "UNLOCK TABLES;",
        "between",
        "UNLOCK TABLES;",
        "DROP TABLE `b`;",
        "UNLOCK TABLES;",
        "after",
    ]);
    let files = split_sql_dump(&lines, "", "");
    assert_eq!(
        files,
        vec![
            file("a", "\n\nDROP TABLE `a`;\nUNLOCK TABLES;\n"),
            file("b", "\n\nDROP TABLE `b`;\nUNLOCK TABLES;\n"),
        ]
    );
}

#[test]
fn split_without_tables_makes_no_file() {
    assert_eq!(split_dump(&dump(&["a", "b", "UNLOCK TABLES;"])), Vec::new());
    assert_eq!(split_dump(&Vec::new()), Vec::new());
}

#[test]
fn split_unnamed_tables_keep_their_order() {
    let lines = dump(&["DROP TABLE x;", "1", "UNLOCK TABLES;", "DROP TABLE y;", "2", "UNLOCK TABLES;"]);
    let files = split_sql_dump(&lines, "P", "Q");
    assert_eq!(
        files,
        vec![
            file("", "P\n\nDROP TABLE x;\n1\nUNLOCK TABLES;\nQ"),
            file("", "P\n\nDROP TABLE y;\n2\nUNLOCK TABLES;\nQ"),
        ]
    );
    let mut directory = BTreeMap::new();
    write_all(&mut directory, &files);
    assert_eq!(directory.len(), 1);
    assert_eq!(directory["out/.sql"], "P\n\nDROP TABLE y;\n2\nUNLOCK TABLES;\nQ");
}

#[test]
fn split_twice_leaves_the_same_files() {
    let lines = dump(&[
        "PRE",
        "DROP TABLE `a`;",
        "1",
        "UNLOCK TABLES;",
        "DROP TABLE `b`;",
        "2",
        "UNLOCK TABLES;",
        "DROP TABLE `a`;",
        "3",
        "UNLOCK TABLES;",
        "POST",
    ]);
    let first = split_dump(&lines);
    let second = split_dump(&lines);
    assert_eq!(first, second);
    let mut once = BTreeMap::new();
    write_all(&mut once, &first);
    let mut twice = once.clone();
    write_all(&mut twice, &second);
    assert_eq!(once, twice);
    assert_eq!(once.len(), 2);
    assert_eq!(once["out/a.sql"], "PRE\n\nDROP TABLE `a`;\n3\nUNLOCK TABLES;\nPOST");
    assert_eq!(once["out/b.sql"], "PRE\n\nDROP TABLE `b`;\n2\nUNLOCK TABLES;\nPOST");
}

#[test]
fn splitter_hands_out_a_file_when_its_table_is_closed() {
    let mut splitter = Splitter::new("P", "Q");
    assert_eq!(splitter.feed("head"), None);
    assert_eq!(splitter.feed("DROP TABLE `a`;"), None);
    assert_eq!(splitter.feed("a1"), None);
    assert_eq!(splitter.feed("UNLOCK TABLES;"), Some(file("a", "P\n\nDROP TABLE `a`;\na1\nUNLOCK TABLES;\nQ")));
    assert_eq!(splitter.feed("between"), None);
    assert_eq!(splitter.feed("UNLOCK TABLES;"), None);
    assert_eq!(splitter.feed("DROP TABLE `b`;"), None);
    assert_eq!(splitter.feed("DROP TABLE `c`;"), Some(file("b", "P\n\nDROP TABLE `b`;\nQ")));
    assert_eq!(splitter.feed("c1"), None);
    assert_eq!(splitter.finish(), Some(file("c", "P\n\nDROP TABLE `c`;\nc1\nQ")));
}

#[test]
fn splitter_without_open_table_finishes_with_nothing() {
    let mut splitter = Splitter::new("P", "Q");
    assert_eq!(splitter.feed("DROP TABLE `a`;"), None);
    assert!(splitter.feed("UNLOCK TABLES;").is_some());
    assert_eq!(splitter.finish(), None);
    assert_eq!(Splitter::new("P", "Q").finish(), None);
}

#[test]
fn table_file_path_joins_directory_name_and_extension() {
    assert_eq!(table_file_path("out", "users"), "out/users.sql");
    assert_eq!(table_file_path("/tmp/split dir", "t1"), "/tmp/split dir/t1.sql");
    assert_eq!(table_file_path("out", ""), "out/.sql");
    assert_eq!(table_file_path("", "t"), "/t.sql");
}
