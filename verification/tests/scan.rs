use multidump::markers::{ends_table, extract_table_name, starts_table};
use multidump::scan::{scan_sql_dump, Scanner};
use multidump::text::{join_lines, starts_with};

fn lines(text: &[&str]) -> Vec<String> {
    text.iter().map(|line| line.to_string()).collect()
}

#[test]
fn scan_two_tables() {
    let dump = lines(&[
        "PRE1",
        "DROP TABLE `t1`;",
        "INS1",
        "UNLOCK TABLES;",
        "DROP TABLE `t2`;",
        "INS2",
        "UNLOCK TABLES;",
        "POST1",
    ]);
    let (preamble, postamble) = scan_sql_dump(&dump);
    assert_eq!(preamble, "PRE1");
    assert_eq!(postamble, "POST1");
}

#[test]
fn scan_without_table_start_is_all_preamble() {
    let dump = lines(&["SET NAMES utf8;", "UNLOCK TABLES;", "-- done"]);
    let (preamble, postamble) = scan_sql_dump(&dump);
    assert_eq!(preamble, "SET NAMES utf8;\nUNLOCK TABLES;\n-- done");
    assert_eq!(postamble, "");
}

#[test]
fn scan_table_start_on_first_line_has_empty_preamble() {
    let dump = lines(&["DROP TABLE `a`;", "INSERT 1", "UNLOCK TABLES;", "TAIL"]);
    let (preamble, postamble) = scan_sql_dump(&dump);
    assert_eq!(preamble, "");
    assert_eq!(postamble, "TAIL");
}

#[test]
fn scan_without_table_end_has_empty_postamble() {
    let dump = lines(&["HEAD", "DROP TABLE `a`;", "INSERT 1", "INSERT 2"]);
    let (preamble, postamble) = scan_sql_dump(&dump);
    assert_eq!(preamble, "HEAD");
    assert_eq!(postamble, "");
}

#[test]
fn scan_ignores_table_end_inside_preamble() {
    let dump = lines(&["UNLOCK TABLES;", "HEAD", "DROP TABLE `a`;", "INSERT 1"]);
    let (preamble, postamble) = scan_sql_dump(&dump);
    assert_eq!(preamble, "UNLOCK TABLES;\nHEAD");
    assert_eq!(postamble, "");
}

#[test]
fn scan_postamble_follows_the_last_table_end() {
    let dump = lines(&[
        "H1",
        "H2",
        "DROP TABLE `a`;",
        "UNLOCK TABLES;",
        "between",
        "DROP TABLE `b`;",
        "UNLOCK TABLES;",
        "T1",
        "T2",
        "T3",
    ]);
    let (preamble, postamble) = scan_sql_dump(&dump);
    assert_eq!(preamble, "H1\nH2");
    assert_eq!(postamble, "T1\nT2\nT3");
}

#[test]
fn scan_table_end_on_last_line_has_empty_postamble() {
    let dump = lines(&["H", "DROP TABLE `a`;", "UNLOCK TABLES;"]);
    let (preamble, postamble) = scan_sql_dump(&dump);
    assert_eq!(preamble, "H");
    assert_eq!(postamble, "");
}

#[test]
fn scan_later_table_start_stays_out_of_preamble() {
    let dump = lines(&["H", "DROP TABLE `a`;", "x", "DROP TABLE `b`;", "UNLOCK TABLES;", "T"]);
    let (preamble, postamble) = scan_sql_dump(&dump);
    assert_eq!(preamble, "H");
    assert_eq!(postamble, "T");
}

#[test]
fn scan_empty_dump() {
    let (preamble, postamble) = scan_sql_dump(&Vec::new());
    assert_eq!(preamble, "");
    assert_eq!(postamble, "");
}

#[test]
fn scan_keeps_empty_lines() {
    let dump = lines(&["", "H", "", "DROP TABLE `a`;", "UNLOCK TABLES;", "", "T", ""]);
    let (preamble, postamble) = scan_sql_dump(&dump);
    assert_eq!(preamble, "\nH\n");
    assert_eq!(postamble, "\nT\n");
}

#[test]
fn scanner_line_by_line_agrees_with_whole_scan() {
    let dump = lines(&[
        "PRE1",
        "PRE2",
        "DROP TABLE `t1`;",
        "INS1",
        "UNLOCK TABLES;",
        "POST1",
        "POST2",
    ]);
    let mut scanner = Scanner::new();
    for line in &dump {
        scanner.feed(line);
    }
    assert_eq!(scanner.finish(), scan_sql_dump(&dump));
    assert_eq!(scan_sql_dump(&dump), ("PRE1\nPRE2".to_string(), "POST1\nPOST2".to_string()));
}

#[test]
fn scanner_without_lines() {
    assert_eq!(Scanner::new().finish(), (String::new(), String::new()));
}

#[test]
fn starts_with_compares_prefixes() {
    assert!(starts_with("DROP TABLE `a`", "DROP TABLE"));
    assert!(starts_with("abc", ""));
    assert!(starts_with("abc", "abc"));
    assert!(!starts_with("ab", "abc"));
    assert!(!starts_with("abd", "abc"));
    assert!(!starts_with("", "a"));
    assert!(starts_with("", ""));
    assert!(starts_with("héllo wörld", "héllo"));
    assert!(!starts_with("hello", "héllo"));
}

#[test]
fn table_markers_are_line_prefixes() {
    assert!(starts_table("DROP TABLE IF EXISTS `users`;"));
    assert!(starts_table("DROP TABLE"));
    assert!(!starts_table(" DROP TABLE `users`;"));
    assert!(!starts_table("DROP TABL"));
    assert!(!starts_table("drop table `users`;"));
    assert!(!starts_table("-- DROP TABLE"));
    assert!(ends_table("UNLOCK TABLES;"));
    assert!(ends_table("UNLOCK TABLES; -- done"));
    assert!(!ends_table("UNLOCK TABLES"));
    assert!(!ends_table("LOCK TABLES;"));
    assert!(!ends_table(""));
}

#[test]
fn table_name_is_between_the_first_two_quotes() {
    assert_eq!(extract_table_name("DROP TABLE IF EXISTS `users`;"), "users");
    assert_eq!(extract_table_name("DROP TABLE `t1`;"), "t1");
    assert_eq!(extract_table_name("DROP TABLE `a`, `b`;"), "a");
    assert_eq!(extract_table_name("`x`"), "x");
    assert_eq!(extract_table_name("DROP TABLE `päivä`;"), "päivä");
    assert_eq!(extract_table_name("ü `t` ü"), "t");
}

#[test]
fn table_name_is_empty_without_two_quotes() {
    assert_eq!(extract_table_name("DROP TABLE users;"), "");
    assert_eq!(extract_table_name("DROP TABLE `users;"), "");
    assert_eq!(extract_table_name("`"), "");
    assert_eq!(extract_table_name(""), "");
    assert_eq!(extract_table_name("DROP TABLE ``;"), "");
}

#[test]
fn join_lines_puts_the_separator_between() {
    assert_eq!(join_lines(&lines(&["a", "b", "c"]), "\n"), "a\nb\nc");
    assert_eq!(join_lines(&lines(&["a"]), "\n"), "a");
    assert_eq!(join_lines(&lines(&[]), "\n"), "");
    assert_eq!(join_lines(&lines(&["", ""]), ", "), ", ");
    assert_eq!(join_lines(&lines(&["x", "y"]), ""), "xy");
}
