//! The import of split files: the invocation of the database client that
//! replays one file, and the batches in which the files are replayed.

use crate::text::{join, join_lines};
use vstd::prelude::*;

verus! {

/// How to reach the database. Each part may be absent, and then the client
/// is not told about it.
#[derive(Debug, PartialEq, Eq)]
pub struct Connection {
    pub host: Option<String>,
    pub port: Option<u16>,
    pub user: Option<String>,
    pub password: Option<String>,
}

/// A connection as plain text and numbers.
pub struct ConnectionView {
    pub host: Option<Seq<char>>,
    pub port: Option<u16>,
    pub user: Option<Seq<char>>,
    pub password: Option<Seq<char>>,
}

impl View for Connection {
    type V = ConnectionView;

    open spec fn view(&self) -> ConnectionView {
        ConnectionView {
            host: self.host.deep_view(),
            port: self.port,
            user: self.user.deep_view(),
            password: self.password.deep_view(),
        }
    }
}

/// The decimal digit `digit`, which is below ten, as text.
pub open spec fn digit_text(digit: nat) -> Seq<char>
    recommends
        digit < 10,
{
    "0123456789"@.subrange(digit as int, digit as int + 1)
}

/// The number in decimal notation, without leading zeros.
pub open spec fn decimal(number: nat) -> Seq<char>
    decreases number,
{
    if number < 10 {
        digit_text(number)
    } else {
        decimal(number / 10) + digit_text(number % 10)
    }
}

/// The argument that tells the client one part of the connection: the flag's
/// name and the value in one word, or no argument where the part is absent.
pub open spec fn flag(name: Seq<char>, value: Option<Seq<char>>) -> Seq<Seq<char>> {
    match value {
        Some(value) => seq![name + value],
        None => Seq::empty(),
    }
}

/// The port in decimal notation, where there is one.
pub open spec fn port_text(port: Option<u16>) -> Option<Seq<char>> {
    match port {
        Some(port) => Some(decimal(port as nat)),
        None => None,
    }
}

/// The arguments of the client that replays the file at `path` into
/// `database`: a flag for each part of the connection that is present, in the
/// order host, port, user, password; then the database's name, and the file
/// as the client's input.
pub open spec fn import_arguments(
    connection: ConnectionView,
    database: Seq<char>,
    path: Seq<char>,
) -> Seq<Seq<char>> {
    flag("--host="@, connection.host) + flag("--port="@, port_text(connection.port)) + flag(
        "--user="@,
        connection.user,
    ) + flag("--password="@, connection.password) + seq![database, "<"@, path]
}

/// The command line that replays the file at `path` into `database`.
pub open spec fn import_command(
    connection: ConnectionView,
    database: Seq<char>,
    path: Seq<char>,
) -> Seq<char> {
    "mysql "@ + join(import_arguments(connection, database, path), " "@)
}

/// What is said before a client is launched, where that is asked for: the
/// command line, after a short label.
pub open spec fn announcement(command: Seq<char>, debug: bool) -> Option<Seq<char>> {
    if debug {
        Some("Running command: "@ + command)
    } else {
        None
    }
}

/// The replay of one file.
#[derive(Debug, PartialEq, Eq)]
pub struct ImportJob {
    /// The file to replay.
    pub path: String,
    /// The command line that replays it.
    pub command: String,
    /// What to say before the client is launched, if anything.
    pub announcement: Option<String>,
    /// The status text to show once the client has ended.
    pub status: String,
}

/// The replay of one file as plain text.
pub struct ImportJobView {
    pub path: Seq<char>,
    pub command: Seq<char>,
    pub announcement: Option<Seq<char>>,
    pub status: Seq<char>,
}

impl View for ImportJob {
    type V = ImportJobView;

    open spec fn view(&self) -> ImportJobView {
        ImportJobView {
            path: self.path@,
            command: self.command@,
            announcement: self.announcement.deep_view(),
            status: self.status@,
        }
    }
}

/// The status text shown once the file at `path` has been replayed,
/// whether the client succeeded or not.
pub open spec fn status_text(path: Seq<char>) -> Seq<char> {
    "Importing file: "@ + path
}

/// The replay of the file at `path` into `database`. With `debug` the
/// command line is announced before the client is launched.
pub open spec fn job_for(
    connection: ConnectionView,
    database: Seq<char>,
    path: Seq<char>,
    debug: bool,
) -> ImportJobView {
    ImportJobView {
        path,
        command: import_command(connection, database, path),
        announcement: announcement(import_command(connection, database, path), debug),
        status: status_text(path),
    }
}

/// One decimal digit as text.
fn digit_string(digit: u64) -> (text: &'static str)
    requires
        digit < 10,
    ensures
        text@ == digit_text(digit as nat),
{
    proof {
        reveal_strlit("0123456789");
        reveal_strlit("0");
        reveal_strlit("1");
        reveal_strlit("2");
        reveal_strlit("3");
        reveal_strlit("4");
        reveal_strlit("5");
        reveal_strlit("6");
        reveal_strlit("7");
        reveal_strlit("8");
        reveal_strlit("9");
    }
    let text = if digit == 0 {
        "0"
    } else if digit == 1 {
        "1"
    } else if digit == 2 {
        "2"
    } else if digit == 3 {
        "3"
    } else if digit == 4 {
        "4"
    } else if digit == 5 {
        "5"
    } else if digit == 6 {
        "6"
    } else if digit == 7 {
        "7"
    } else if digit == 8 {
        "8"
    } else {
        "9"
    };
    assert(text@ =~= digit_text(digit as nat));
    text
}

/// The number in decimal notation.
pub fn decimal_string(number: u64) -> (text: String)
    ensures
        text@ == decimal(number as nat),
    decreases number,
{
    if number < 10 {
        String::from_str(digit_string(number))
    } else {
        let mut text = decimal_string(number / 10);
        text.append(digit_string(number % 10));
        text
    }
}

/// Adds the argument for one part of the connection, if the part is present.
fn push_flag(arguments: &mut Vec<String>, name: &str, value: Option<&str>)
    ensures
        final(arguments).deep_view() == old(arguments).deep_view() + flag(
            name@,
            match value {
                Some(value) => Some(value@),
                None => None,
            },
        ),
{
    let ghost before = arguments.deep_view();
    match value {
        Some(value) => {
            let mut argument = String::from_str(name);
            argument.append(value);
            arguments.push(argument);
            assert(arguments.deep_view() =~= before + seq![name@ + value@]);
        },
        None => {
            assert(arguments.deep_view() =~= before + Seq::<Seq<char>>::empty());
        },
    }
}

/// The arguments of the client that replays the file at `path` into
/// `database`.
pub fn build_import_arguments(
    connection: &Connection,
    database: &str,
    path: &str,
) -> (arguments: Vec<String>)
    ensures
        arguments.deep_view() == import_arguments(connection@, database@, path@),
{
    let mut arguments: Vec<String> = Vec::new();
    assert(arguments.deep_view() =~= Seq::<Seq<char>>::empty());
    match &connection.host {
        Some(host) => push_flag(&mut arguments, "--host=", Some(host.as_str())),
        None => push_flag(&mut arguments, "--host=", None),
    }
    match connection.port {
        Some(port) => {
            let text = decimal_string(port as u64);
            push_flag(&mut arguments, "--port=", Some(text.as_str()));
        },
        None => push_flag(&mut arguments, "--port=", None),
    }
    match &connection.user {
        Some(user) => push_flag(&mut arguments, "--user=", Some(user.as_str())),
        None => push_flag(&mut arguments, "--user=", None),
    }
    match &connection.password {
        Some(password) => push_flag(&mut arguments, "--password=", Some(password.as_str())),
        None => push_flag(&mut arguments, "--password=", None),
    }
    let ghost flags = arguments.deep_view();
    arguments.push(String::from_str(database));
    arguments.push(String::from_str("<"));
    arguments.push(String::from_str(path));
    assert(arguments.deep_view() =~= flags + seq![database@, "<"@, path@]);
    arguments
}

/// The command line that replays the file at `path` into `database`.
pub fn build_import_command(
    connection: &Connection,
    database: &str,
    path: &str,
) -> (command: String)
    ensures
        command@ == import_command(connection@, database@, path@),
{
    let arguments = build_import_arguments(connection, database, path);
    let mut command = String::from_str("mysql ");
    command.append(join_lines(&arguments, " ").as_str());
    command
}

/// The replay of the file at `path` into `database`.
pub fn import_job(
    connection: &Connection,
    database: &str,
    path: &str,
    debug: bool,
) -> (job: ImportJob)
    ensures
        job@ == job_for(connection@, database@, path@, debug),
{
    let command = build_import_command(connection, database, path);
    let announcement = if debug {
        let mut text = String::from_str("Running command: ");
        text.append(command.as_str());
        Some(text)
    } else {
        None
    };
    ImportJob { path: String::from_str(path), command, announcement, status: status_message(path) }
}

/// The status text shown once the file at `path` has been replayed.
pub fn status_message(path: &str) -> (message: String)
    ensures
        message@ == status_text(path@),
{
    let mut message = String::from_str("Importing file: ");
    message.append(path);
    message
}

} // verus!
