//! What the client decides about lines.
//!
//! Two line streams meet in the client: lines from the server, to be
//! shown, saved or decoded, and lines from the console, to be sent. The
//! decisions are made here, on the text alone; the surrounding program
//! does the reading, writing, JSON coding and file saving they call for.

use vstd::prelude::*;

use crate::text::first_index_of;
use crate::text::lemma_first_index_of;
use crate::text::starts_with_str;
use crate::text::strip_prefix_all;
use crate::text::strip_prefix_repeated;
use crate::text::str_eq;
use crate::text::trim;
use crate::text::trimmed;

verus! {

/// What a server line asks of the client, as the contracts see it.
#[verifier::ext_equal]
pub enum ServerLineView {
    /// No colon: show the line as it is.
    Plain,
    /// One colon: show the trimmed text after it.
    Block { block: Seq<char> },
    /// The field between the colons reads `file`: decode the whole line
    /// as a file transfer and save it.
    File,
    /// It reads `text`: show the message as coming from the first field.
    Text { from: Seq<char>, msg: Seq<char> },
    /// Anything else is reported unrecognized.
    Other,
}

/// Reads a server line: cut at the first colon, the remainder trimmed and
/// cut at its own first colon, and the field between the two colons
/// decides what the client does.
pub open spec fn classify_server_view(line: Seq<char>) -> ServerLineView {
    match first_index_of(line, ':') {
        None => ServerLineView::Plain,
        Some(i) => {
            let dest = line.subrange(0, i);
            let block = trimmed(line.subrange(i + 1, line.len() as int));
            match first_index_of(block, ':') {
                None => ServerLineView::Block { block },
                Some(j) => {
                    let ty = block.subrange(0, j);
                    let msg = trimmed(block.subrange(j + 1, block.len() as int));
                    if ty == "file"@ {
                        ServerLineView::File
                    } else if ty == "text"@ {
                        ServerLineView::Text { from: dest, msg }
                    } else {
                        ServerLineView::Other
                    }
                },
            }
        },
    }
}

/// What a server line asks of the client.
pub enum ServerLine {
    Plain,
    Block { block: String },
    File,
    Text { from: String, msg: String },
    Other,
}

impl View for ServerLine {
    type V = ServerLineView;

    open spec fn view(&self) -> ServerLineView {
        match self {
            ServerLine::Plain => ServerLineView::Plain,
            ServerLine::Block { block } => ServerLineView::Block { block: block@ },
            ServerLine::File => ServerLineView::File,
            ServerLine::Text { from, msg } => ServerLineView::Text { from: from@, msg: msg@ },
            ServerLine::Other => ServerLineView::Other,
        }
    }
}

pub fn classify_server_line(line: &str) -> (r: ServerLine)
    ensures
        r@ == classify_server_view(line@),
{
    let n = line.unicode_len();
    match crate::text::find_char(line, ':') {
        None => ServerLine::Plain,
        Some(i) => {
            proof {
                lemma_first_index_of(line@, ':');
            }
            let dest = line.substring_char(0, i);
            let block = trim(line.substring_char(i + 1, n));
            let bn = block.unicode_len();
            match crate::text::find_char(block, ':') {
                None => ServerLine::Block { block: String::from_str(block) },
                Some(j) => {
                    proof {
                        lemma_first_index_of(block@, ':');
                    }
                    let ty = block.substring_char(0, j);
                    let msg = trim(block.substring_char(j + 1, bn));
                    if str_eq(ty, "file") {
                        ServerLine::File
                    } else if str_eq(ty, "text") {
                        ServerLine::Text {
                            from: String::from_str(dest),
                            msg: String::from_str(msg),
                        }
                    } else {
                        ServerLine::Other
                    }
                },
            }
        },
    }
}

/// What a console line asks of the client, as the contracts see it.
#[verifier::ext_equal]
pub enum ClientInputView {
    /// Sent to the server as it stands: a line without a colon, or one
    /// whose field between the colons is not `file`.
    Forward,
    /// A colon but no second field: nothing is sent.
    Rejected,
    /// `dest:file:path`: read the file at `path` and send it to `dest`.
    SendFile { dest: Seq<char>, path: Seq<char> },
}

/// Reads a console line the same way a server line is read: only the
/// `file` field changes what happens, everything else goes to the server
/// verbatim or, lacking the second colon, nowhere.
pub open spec fn classify_input_view(line: Seq<char>) -> ClientInputView {
    match first_index_of(line, ':') {
        None => ClientInputView::Forward,
        Some(i) => {
            let dest = line.subrange(0, i);
            let block = trimmed(line.subrange(i + 1, line.len() as int));
            match first_index_of(block, ':') {
                None => ClientInputView::Rejected,
                Some(j) => {
                    if block.subrange(0, j) == "file"@ {
                        ClientInputView::SendFile {
                            dest,
                            path: trimmed(block.subrange(j + 1, block.len() as int)),
                        }
                    } else {
                        ClientInputView::Forward
                    }
                },
            }
        },
    }
}

/// What a console line asks of the client.
pub enum ClientInput {
    Forward,
    Rejected,
    SendFile { dest: String, path: String },
}

impl View for ClientInput {
    type V = ClientInputView;

    open spec fn view(&self) -> ClientInputView {
        match self {
            ClientInput::Forward => ClientInputView::Forward,
            ClientInput::Rejected => ClientInputView::Rejected,
            ClientInput::SendFile { dest, path } => ClientInputView::SendFile {
                dest: dest@,
                path: path@,
            },
        }
    }
}

pub fn classify_input(line: &str) -> (r: ClientInput)
    ensures
        r@ == classify_input_view(line@),
{
    let n = line.unicode_len();
    match crate::text::find_char(line, ':') {
        None => ClientInput::Forward,
        Some(i) => {
            proof {
                lemma_first_index_of(line@, ':');
            }
            let dest = line.substring_char(0, i);
            let block = trim(line.substring_char(i + 1, n));
            let bn = block.unicode_len();
            match crate::text::find_char(block, ':') {
                None => ClientInput::Rejected,
                Some(j) => {
                    proof {
                        lemma_first_index_of(block@, ':');
                    }
                    let ty = block.substring_char(0, j);
                    if str_eq(ty, "file") {
                        let path = trim(block.substring_char(j + 1, bn));
                        ClientInput::SendFile {
                            dest: String::from_str(dest),
                            path: String::from_str(path),
                        }
                    } else {
                        ClientInput::Forward
                    }
                },
            }
        },
    }
}

/// The body of a system line: what follows the `SYS:` mark, when a line
/// bears it.
pub open spec fn spec_sys_body(line: Seq<char>) -> Option<Seq<char>> {
    if "SYS:"@.is_prefix_of(line) {
        Some(line.subrange(4, line.len() as int))
    } else {
        None
    }
}

pub fn sys_body(line: &str) -> (r: Option<String>)
    ensures
        r matches Some(body) ==> spec_sys_body(line@) == Some(body@),
        (r is Some) == (spec_sys_body(line@) is Some),
{
    if starts_with_str(line, "SYS:") {
        proof {
            reveal_strlit("SYS:");
        }
        let n = line.unicode_len();
        Some(String::from_str(line.substring_char(4, n)))
    } else {
        None
    }
}

/// What a command-style console line asks, as the contracts see it. The
/// three commands each start with their mark; `file` and `text` then need
/// a space between the destination and the payload.
#[verifier::ext_equal]
pub enum CommandView {
    SendFile { dest: Seq<char>, path: Seq<char> },
    SendText { dest: Seq<char>, content: Seq<char> },
    SendInfo { info: Seq<char> },
    /// A `file:` line without the separating space.
    BadFile,
    /// A `text:` line without the separating space.
    BadText,
    Unrecognized,
}

/// Reads a command-style console line: `file:` and `text:` lines are cut
/// at the first space, the mark is stripped (repeatedly, the way
/// `str::trim_start_matches` strips it) off the destination and the
/// payload is trimmed; a `system:` line is stripped of its mark whole.
pub open spec fn parse_command_view(line: Seq<char>) -> CommandView {
    if "file:"@.is_prefix_of(line) {
        match first_index_of(line, ' ') {
            Some(i) => CommandView::SendFile {
                dest: strip_prefix_all(line.subrange(0, i), "file:"@),
                path: trimmed(line.subrange(i + 1, line.len() as int)),
            },
            None => CommandView::BadFile,
        }
    } else if "text:"@.is_prefix_of(line) {
        match first_index_of(line, ' ') {
            Some(i) => CommandView::SendText {
                dest: strip_prefix_all(line.subrange(0, i), "text:"@),
                content: trimmed(line.subrange(i + 1, line.len() as int)),
            },
            None => CommandView::BadText,
        }
    } else if "system:"@.is_prefix_of(line) {
        CommandView::SendInfo { info: trimmed(strip_prefix_all(line, "system:"@)) }
    } else {
        CommandView::Unrecognized
    }
}

/// What a command-style console line asks.
pub enum Command {
    SendFile { dest: String, path: String },
    SendText { dest: String, content: String },
    SendInfo { info: String },
    BadFile,
    BadText,
    Unrecognized,
}

impl View for Command {
    type V = CommandView;

    open spec fn view(&self) -> CommandView {
        match self {
            Command::SendFile { dest, path } => CommandView::SendFile {
                dest: dest@,
                path: path@,
            },
            Command::SendText { dest, content } => CommandView::SendText {
                dest: dest@,
                content: content@,
            },
            Command::SendInfo { info } => CommandView::SendInfo { info: info@ },
            Command::BadFile => CommandView::BadFile,
            Command::BadText => CommandView::BadText,
            Command::Unrecognized => CommandView::Unrecognized,
        }
    }
}

pub fn parse_command(line: &str) -> (r: Command)
    ensures
        r@ == parse_command_view(line@),
{
    let n = line.unicode_len();
    if starts_with_str(line, "file:") {
        match crate::text::find_char(line, ' ') {
            Some(i) => {
                proof {
                    lemma_first_index_of(line@, ' ');
                }
                let dest = strip_prefix_repeated(line.substring_char(0, i), "file:");
                let path = trim(line.substring_char(i + 1, n));
                Command::SendFile {
                    dest: String::from_str(dest),
                    path: String::from_str(path),
                }
            },
            None => Command::BadFile,
        }
    } else if starts_with_str(line, "text:") {
        match crate::text::find_char(line, ' ') {
            Some(i) => {
                proof {
                    lemma_first_index_of(line@, ' ');
                }
                let dest = strip_prefix_repeated(line.substring_char(0, i), "text:");
                let content = trim(line.substring_char(i + 1, n));
                Command::SendText {
                    dest: String::from_str(dest),
                    content: String::from_str(content),
                }
            },
            None => Command::BadText,
        }
    } else if starts_with_str(line, "system:") {
        let info = trim(strip_prefix_repeated(line, "system:"));
        Command::SendInfo { info: String::from_str(info) }
    } else {
        Command::Unrecognized
    }
}

} // verus!
