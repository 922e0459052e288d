use vstd::prelude::*;

use crate::status::byte_strings;
use crate::text::{io_error_text, lossy_text, trim_white, trimmed, utf8_lossy};

verus! {

/// `std::io::Error` carried through the library without looking inside.
#[verifier::external_type_specification]
#[verifier::external_body]
pub struct ExIoError(std::io::Error);

/// Errors of the library: a failed git invocation, an I/O failure, or
/// output that could not be parsed.
#[derive(Debug)]
pub enum GitChaiError {
    GitCommandError { command: String, stderr: String },
    IoError(std::io::Error),
    ParseError(String),
}

/// The text shown for a failed git command.
pub open spec fn git_command_error_text(command: Seq<char>, stderr: Seq<char>) -> Seq<char> {
    "Git command failed: "@ + command + ": "@ + stderr
}

/// The text shown for an I/O error whose own text is `detail`.
pub open spec fn io_error_message_text(detail: Seq<char>) -> Seq<char> {
    "IO error: "@ + detail
}

/// The text shown for an I/O error whose own text is `detail`.
pub fn io_error_message(detail: &str) -> (s: String)
    ensures
        s@ == io_error_message_text(detail@),
{
    let mut s = String::from_str("IO error: ");
    s.append(detail);
    s
}

/// The text shown for a parse error.
pub open spec fn parse_error_text(message: Seq<char>) -> Seq<char> {
    "Parse error: "@ + message
}

impl GitChaiError {
    /// The human readable form of the error.
    pub fn to_string(&self) -> (s: String)
        ensures
            match self {
                GitChaiError::GitCommandError { command, stderr } => s@ == git_command_error_text(
                    command@,
                    stderr@,
                ),
                GitChaiError::IoError(e) => s@.len() >= 10 && s@ == io_error_message_text(
                    s@.subrange(10, s@.len() as int),
                ),
                GitChaiError::ParseError(m) => s@ == parse_error_text(m@),
            },
    {
        match self {
            GitChaiError::GitCommandError { command, stderr } => {
                let mut s = String::from_str("Git command failed: ");
                s.append(command.as_str());
                s.append(": ");
                s.append(stderr.as_str());
                s
            },
            GitChaiError::IoError(e) => {
                let detail = io_error_text(e);
                let s = io_error_message(detail.as_str());
                proof {
                    reveal_strlit("IO error: ");
                    assert(s@.subrange(10, s@.len() as int) =~= detail@);
                }
                s
            },
            GitChaiError::ParseError(m) => {
                let mut s = String::from_str("Parse error: ");
                s.append(m.as_str());
                s
            },
        }
    }
}

} // verus!

verus! {

/// The arguments of a command line read as text (invalid UTF-8 replaced),
/// separated by single spaces.
pub open spec fn joined_args(args: Seq<Seq<u8>>) -> Seq<char>
    decreases args.len(),
{
    if args.len() == 0 {
        Seq::empty()
    } else if args.len() == 1 {
        utf8_lossy(args[0])
    } else {
        joined_args(args.drop_last()) + " "@ + utf8_lossy(args.last())
    }
}

/// How a run of `git` with `args` is named in an error.
pub open spec fn command_line(args: Seq<Seq<u8>>) -> Seq<char> {
    "git "@ + joined_args(args)
}

/// The error for a run of `git` with `args` that exited unsuccessfully
/// after writing `stderr`: the command line and the error output as text,
/// trimmed of surrounding white space.
pub fn command_failed(args: &Vec<Vec<u8>>, stderr: &[u8]) -> (e: GitChaiError)
    ensures
        e matches GitChaiError::GitCommandError { command, stderr: err } && command@
            == command_line(byte_strings(args@)) && err@ == trim_white(utf8_lossy(stderr@)),
{
    let ghost a = byte_strings(args@);
    let mut command = String::from_str("git ");
    let ghost head = command@;
    proof {
        reveal_strlit("git ");
        reveal_strlit(" ");
    }
    let mut i: usize = 0;
    assert(a.take(0) =~= Seq::<Seq<u8>>::empty());
    while i < args.len()
        invariant
            a == byte_strings(args@),
            i <= args@.len(),
            head == "git "@,
            command@ == head + joined_args(a.take(i as int)),
        decreases args@.len() - i,
    {
        assert(a.take(i + 1).drop_last() =~= a.take(i as int));
        assert(a.take(i + 1).last() == args@[i as int]@);
        if i > 0 {
            command.append(" ");
        }
        let part = lossy_text(args[i].as_slice());
        command.append(part.as_str());
        assert(command@ =~= head + joined_args(a.take(i + 1)));
        i = i + 1;
    }
    assert(a.take(args@.len() as int) =~= a);
    let text = lossy_text(stderr);
    let err = trimmed(text.as_str());
    GitChaiError::GitCommandError { command, stderr: err }
}

} // verus!
