//! The client's side of the remote editing protocol: the options of a
//! session, the message that opens a file, and the reading of the
//! commands that come back, line by line.

use crate::text::{
    decimal, decimal_text, parse_decimal, second_field, second_piece, str_eq, trim, trim_both,
    trim_end, trim_right, write_decimal,
};
use vstd::prelude::*;
use vstd::string::*;
use vstd::utf8::{decode_utf8, valid_utf8};

verus! {

/// The host that is called where none is named.
pub const HOST: &'static str = "localhost";

/// The port that is called where none is named.
pub const PORT: u32 = 52689;

/// What ends the message that opens a file, after the file's bytes.
pub const TRAILER: &'static str = "\n.\n";

/// The options of a session.
#[derive(Debug)]
pub struct Options {
    pub name: String,
    pub host: String,
    pub port: u32,
    pub wait: bool,
}

/// How reading a command fails.
#[derive(Debug)]
pub enum Error {
    /// The stream could not be read; the text describes the failure.
    Io(String),
    /// The data of a command is no UTF-8.
    FromUtf8,
    /// The length of the data is no number.
    ParseInt,
    /// A line lacks the colon that parts a key from its value.
    Parse(String),
}

/// What the server asks for.
#[derive(Debug, Clone, Copy, PartialEq, Eq, Structural)]
pub enum Cmd {
    Save,
    Close,
}

/// One command of the server.
#[derive(Debug)]
pub struct Command {
    pub cmd: Cmd,
    pub token: String,
    pub data: String,
}

/// What reading a command ends with.
#[derive(Debug)]
pub enum ReadCmd {
    /// A whole command.
    Command(Command),
    /// A line that opens no command.
    Empty,
    /// The end of the stream.
    Eof,
}

/// The line that a reader waits for.
#[derive(Debug)]
pub enum Awaiting {
    /// The line that names the command.
    Verb,
    /// The line that holds the token of the command read so far.
    Token(Cmd),
    /// The line that holds the length of the data, after command and token.
    Length(Cmd, String),
}

/// What a reader does after a line.
#[derive(Debug)]
pub enum Step {
    /// Read another line.
    ReadLine(Awaiting),
    /// Read as many bytes of data as the number says, for this command and token.
    ReadData(Cmd, String, usize),
    /// Reading has ended.
    Done(ReadCmd),
    /// Reading has failed.
    Failed(Error),
}

/// What happens after a command was read.
#[derive(Debug)]
pub enum Action {
    /// Read the next command.
    Next,
    /// Stop reading.
    Stop,
    /// Write `data` to the file at `path`, then read the next command.
    Write { path: String, data: String },
}

/// How a fork ended for the process that asks.
#[derive(Debug, Clone, Copy, PartialEq, Eq, Structural)]
pub enum Forked {
    Parent,
    Child,
    Failed,
}

/// What a process does after a fork.
#[derive(Debug, Clone, Copy, PartialEq, Eq, Structural)]
pub enum AfterFork {
    /// Leave with this exit status.
    Exit(i32),
    /// Go on with the session.
    Proceed,
    /// Give up with the message `fork failed`.
    GiveUp,
}

/// The session's options: the name as given, host and port as given or
/// else the defaults. `None` where no file is named.
pub fn parse_options(
    name: Option<String>,
    host: Option<String>,
    port: Option<u32>,
    wait: bool,
) -> (r: Option<Options>)
    ensures
        match r {
            Some(o) => {
                &&& name == Some(o.name)
                &&& o.host@ == match host {
                    Some(h) => h@,
                    None => HOST@,
                }
                &&& o.port == match port {
                    Some(p) => p,
                    None => PORT,
                }
                &&& o.wait == wait
            },
            None => name is None,
        },
{
    match name {
        Some(name) => Some(
            Options {
                name,
                host: match host {
                    Some(h) => h,
                    None => HOST.to_owned(),
                },
                port: match port {
                    Some(p) => p,
                    None => PORT,
                },
                wait,
            },
        ),
        None => None,
    }
}

/// The process that asked for the fork leaves with status 0, the new one
/// goes on, and a fork that failed ends everything.
pub fn _fork(outcome: Forked) -> (r: AfterFork)
    ensures
        r == match outcome {
            Forked::Parent => AfterFork::Exit(0),
            Forked::Child => AfterFork::Proceed,
            Forked::Failed => AfterFork::GiveUp,
        },
{
    match outcome {
        Forked::Parent => AfterFork::Exit(0),
        Forked::Child => AfterFork::Proceed,
        Forked::Failed => AfterFork::GiveUp,
    }
}

/// Calls `String::from_utf8`: the text that the bytes encode, if they are
/// well-formed UTF-8, and nothing otherwise.
#[verifier::external_body]
fn string_from_utf8(bytes: Vec<u8>) -> (r: Option<String>)
    ensures
        match r {
            Some(s) => valid_utf8(bytes@) && s@ == decode_utf8(bytes@),
            None => !valid_utf8(bytes@),
        },
{
    String::from_utf8(bytes).ok()
}

/// The head of the message that opens a file: everything before the
/// file's bytes.
pub open spec fn open_header(name: Seq<char>, real_path: Seq<char>, size: nat) -> Seq<char> {
    "open\n"@ + "display-name: "@ + name + "\n"@ + "real-path: "@ + real_path + "\n"@
        + "data-on-save: yes\n"@ + "re-activate: yes\n"@ + "token: "@ + name + "\n"@ + "data: "@
        + decimal_text(size) + "\n"@
}

/// Builds the head of the message that opens the file `name`, whose
/// resolved path is written as `real_path` and which holds `size` bytes.
/// The file's bytes follow it on the wire, and `TRAILER` ends the message.
pub fn send_open(name: &str, real_path: &str, size: usize) -> (head: String)
    ensures
        head@ == open_header(name@, real_path@, size as nat),
{
    let mut head = String::new();
    head.append("open\n");
    head.append("display-name: ");
    head.append(name);
    head.append("\n");
    head.append("real-path: ");
    head.append(real_path);
    head.append("\n");
    head.append("data-on-save: yes\n");
    head.append("re-activate: yes\n");
    head.append("token: ");
    head.append(name);
    head.append("\n");
    head.append("data: ");
    write_decimal(size, &mut head);
    head.append("\n");
    assert(head@ == open_header(name@, real_path@, size as nat));
    head
}

/// The command that a line names, once the white space at its end is off.
pub open spec fn verb_of(line: Seq<char>) -> Option<Cmd> {
    let t = trim_end(line);
    if t == seq!['s', 'a', 'v', 'e'] {
        Some(Cmd::Save)
    } else if t == seq!['c', 'l', 'o', 's', 'e'] {
        Some(Cmd::Close)
    } else {
        None
    }
}

/// The value on a line of the form `key: value`: what stands between the
/// first colon and the next, without the white space around it.
pub open spec fn field_of(line: Seq<char>) -> Option<Seq<char>> {
    match second_piece(trim_end(line)) {
        Some(p) => Some(trim(p)),
        None => None,
    }
}

/// Whether `step` is what follows when a reader that waits as `state`
/// says gets `line`, or the end of the stream where `line` is `None`.
pub open spec fn follows(state: Awaiting, line: Option<Seq<char>>, step: Step) -> bool {
    match line {
        None => step matches Step::Done(ReadCmd::Eof),
        Some(l) => match state {
            Awaiting::Verb => match verb_of(l) {
                Some(c) => step matches Step::ReadLine(Awaiting::Token(c2)) && c2 == c,
                None => step matches Step::Done(ReadCmd::Empty),
            },
            Awaiting::Token(c) => match field_of(l) {
                Some(t) => step matches Step::ReadLine(Awaiting::Length(c2, t2)) && c2 == c && t2@
                    == t,
                None => step matches Step::Failed(Error::Parse(m)) && m@ == "cannot parse token"@,
            },
            Awaiting::Length(c, token) => match field_of(l) {
                Some(t) => match decimal(t) {
                    Some(n) => step matches Step::ReadData(c2, t2, n2) && c2 == c && t2@ == token@
                        && n2 == n,
                    None => step matches Step::Failed(Error::ParseInt),
                },
                None => step matches Step::Failed(Error::Parse(m)) && m@
                    == "cannot parse data length"@,
            },
        },
    }
}

fn field<'a>(line: &'a str) -> (r: Option<&'a str>)
    ensures
        match r {
            Some(t) => field_of(line@) == Some(t@),
            None => field_of(line@) is None,
        },
{
    match second_field(trim_right(line)) {
        Some(p) => Some(trim_both(p)),
        None => None,
    }
}

/// Takes one line of a command, or the end of the stream, and says how
/// reading goes on. A command is three lines and its data: the line that
/// names it, the line with its token, the line with the length of its
/// data. The end of the stream in place of any of the three ends the
/// reading; a first line that names no command is passed over.
pub fn read_command(state: Awaiting, line: Option<&str>) -> (step: Step)
    ensures
        follows(
            state,
            match line {
                Some(l) => Some(l@),
                None => None,
            },
            step,
        ),
{
    let line = match line {
        Some(l) => l,
        None => {
            return Step::Done(ReadCmd::Eof);
        },
    };
    match state {
        Awaiting::Verb => {
            let verb = trim_right(line);
            proof {
                reveal_strlit("save");
                reveal_strlit("close");
                assert("save"@ =~= seq!['s', 'a', 'v', 'e']);
                assert("close"@ =~= seq!['c', 'l', 'o', 's', 'e']);
            }
            if str_eq(verb, "save") {
                Step::ReadLine(Awaiting::Token(Cmd::Save))
            } else if str_eq(verb, "close") {
                Step::ReadLine(Awaiting::Token(Cmd::Close))
            } else {
                Step::Done(ReadCmd::Empty)
            }
        },
        Awaiting::Token(cmd) => match field(line) {
            Some(t) => Step::ReadLine(Awaiting::Length(cmd, t.to_owned())),
            None => Step::Failed(Error::Parse("cannot parse token".to_owned())),
        },
        Awaiting::Length(cmd, token) => match field(line) {
            Some(t) => match parse_decimal(t) {
                Some(n) => Step::ReadData(cmd, token, n),
                None => Step::Failed(Error::ParseInt),
            },
            None => Step::Failed(Error::Parse("cannot parse data length".to_owned())),
        },
    }
}

/// Makes the command out of its parts once its data is read. The data
/// has to be UTF-8.
pub fn command_of(cmd: Cmd, token: String, data: Vec<u8>) -> (r: Result<Command, Error>)
    ensures
        match r {
            Ok(c) => valid_utf8(data@) && c.cmd == cmd && c.token == token && c.data@
                == decode_utf8(data@),
            Err(e) => !valid_utf8(data@) && e is FromUtf8,
        },
{
    match string_from_utf8(data) {
        Some(text) => Ok(Command { cmd, token, data: text }),
        None => Err(Error::FromUtf8),
    }
}

/// What is done about what was read: the end of the stream stops the
/// reading, a command to save has its data written to the file that its
/// token names, and everything else is passed over.
pub fn handle_commands(read: ReadCmd) -> (r: Action)
    ensures
        match read {
            ReadCmd::Eof => r is Stop,
            ReadCmd::Empty => r is Next,
            ReadCmd::Command(c) => match c.cmd {
                Cmd::Save => r matches Action::Write { path, data } && path == c.token && data
                    == c.data,
                Cmd::Close => r is Next,
            },
        },
{
    match read {
        ReadCmd::Eof => Action::Stop,
        ReadCmd::Empty => Action::Next,
        ReadCmd::Command(c) => match c.cmd {
            Cmd::Save => Action::Write { path: c.token, data: c.data },
            Cmd::Close => Action::Next,
        },
    }
}

} // verus!
