use multidump::batches::split_into_batches;
use multidump::import::{
    build_import_arguments, build_import_command, decimal_string, import_job, status_message,
    Connection,
};

fn names(text: &[&str]) -> Vec<String> {
    text.iter().map(|name| name.to_string()).collect()
}

fn local() -> Connection {
    Connection { host: None, port: None, user: None, password: None }
}

fn remote() -> Connection {
    Connection {
        host: Some("db.example.org".to_string()),
        port: Some(3306),
        user: Some("root".to_string()),
        password: Some("secret".to_string()),
    }
}

#[test]
fn import_arguments_with_every_part() {
    assert_eq!(
        build_import_arguments(&remote(), "shop", "out/t1.sql"),
        names(&[
            "--host=db.example.org",
            "--port=3306",
            "--user=root",
            "--password=secret",
            "shop",
            "<",
            "out/t1.sql",
        ])
    );
}

#[test]
fn import_arguments_without_connection() {
    assert_eq!(build_import_arguments(&local(), "shop", "out/t1.sql"), names(&["shop", "<", "out/t1.sql"]));
}

#[test]
fn import_arguments_leave_out_absent_parts() {
    let connection = Connection { host: None, port: Some(13306), user: Some("me".to_string()), password: None };
    assert_eq!(
        build_import_arguments(&connection, "db", "a.sql"),
        names(&["--port=13306", "--user=me", "db", "<", "a.sql"])
    );
    let connection = Connection { host: Some("h".to_string()), port: None, user: None, password: Some("p w".to_string()) };
    assert_eq!(
        build_import_arguments(&connection, "db", "a.sql"),
        names(&["--host=h", "--password=p w", "db", "<", "a.sql"])
    );
}

#[test]
fn import_command_joins_the_arguments() {
    assert_eq!(
        build_import_command(&remote(), "shop", "out/t1.sql"),
        "mysql --host=db.example.org --port=3306 --user=root --password=secret shop < out/t1.sql"
    );
    assert_eq!(build_import_command(&local(), "shop", "out/t1.sql"), "mysql shop < out/t1.sql");
}

#[test]
fn import_job_announces_only_in_debug() {
    let quiet = import_job(&local(), "shop", "out/t1.sql", false);
    assert_eq!(quiet.path, "out/t1.sql");
    assert_eq!(quiet.command, "mysql shop < out/t1.sql");
    assert_eq!(quiet.announcement, None);
    let loud = import_job(&local(), "shop", "out/t1.sql", true);
    assert_eq!(loud.path, quiet.path);
    assert_eq!(loud.command, quiet.command);
    assert_eq!(loud.announcement, Some("Running command: mysql shop < out/t1.sql".to_string()));
    assert_eq!(quiet.status, "Importing file: out/t1.sql");
    assert_eq!(loud.status, quiet.status);
}

#[test]
fn status_message_names_the_file() {
    assert_eq!(status_message("out/t1.sql"), "Importing file: out/t1.sql");
    assert_eq!(status_message(""), "Importing file: ");
}

#[test]
fn decimal_string_of_numbers() {
    assert_eq!(decimal_string(0), "0");
    assert_eq!(decimal_string(7), "7");
    assert_eq!(decimal_string(9), "9");
    assert_eq!(decimal_string(10), "10");
    assert_eq!(decimal_string(3306), "3306");
    assert_eq!(decimal_string(65535), "65535");
    assert_eq!(decimal_string(1234567890), "1234567890");
    assert_eq!(decimal_string(u64::MAX), "18446744073709551615");
}

#[test]
fn port_is_written_in_decimal() {
    for port in [0u16, 1, 80, 100, 3306, 65535] {
        let connection = Connection { host: None, port: Some(port), user: None, password: None };
        assert_eq!(build_import_arguments(&connection, "d", "f")[0], format!("--port={}", port));
    }
}

#[test]
fn batches_of_two() {
    let files = names(&["a", "b", "c", "d", "e"]);
    assert_eq!(
        split_into_batches(&files, 2),
        vec![names(&["a", "b"]), names(&["c", "d"]), names(&["e"])]
    );
}

#[test]
fn batches_of_one() {
    let files = names(&["a", "b", "c"]);
    assert_eq!(split_into_batches(&files, 1), vec![names(&["a"]), names(&["b"]), names(&["c"])]);
}

#[test]
fn batches_that_fill_up() {
    let files = names(&["a", "b", "c", "d"]);
    assert_eq!(split_into_batches(&files, 2), vec![names(&["a", "b"]), names(&["c", "d"])]);
    assert_eq!(split_into_batches(&files, 4), vec![files.clone()]);
}

#[test]
fn batches_larger_than_the_files() {
    let files = names(&["a", "b", "c"]);
    assert_eq!(split_into_batches(&files, 10), vec![files.clone()]);
    assert_eq!(split_into_batches(&files, usize::MAX), vec![files.clone()]);
}

#[test]
fn batches_of_no_files() {
    let none: Vec<Vec<String>> = Vec::new();
    assert_eq!(split_into_batches(&Vec::new(), 3), none);
}

#[test]
fn batches_keep_every_file_in_order() {
    let files: Vec<String> = (0..23).map(|number| format!("f{}.sql", number)).collect();
    for parallel in 1..30 {
        let batches = split_into_batches(&files, parallel);
        assert_eq!(batches.len(), (files.len() + parallel - 1) / parallel);
        for (index, batch) in batches.iter().enumerate() {
            assert!(!batch.is_empty());
            assert!(batch.len() <= parallel);
            if index + 1 < batches.len() {
                assert_eq!(batch.len(), parallel);
            }
        }
        assert_eq!(batches.concat(), files);
    }
}
