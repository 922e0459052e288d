use vstd::prelude::*;

use crate::error::GitChaiError;
use crate::text::{ascii_char_debug, char_debug, char_debug_text, decimal, decimal_text, push_char};

verus! {

/// A single status letter from one side of a porcelain `XY` pair.
#[derive(Debug, Clone, Copy, PartialEq, Eq, Structural)]
pub enum StatusCode {
    Unmodified,
    Modified,
    Added,
    Deleted,
    Renamed,
    Copied,
    Unmerged,
    TypeChanged,
    Untracked,
    Ignored,
}

/// The porcelain letter of each status code.
pub open spec fn code_letter(code: StatusCode) -> char {
    match code {
        StatusCode::Unmodified => ' ',
        StatusCode::Modified => 'M',
        StatusCode::Added => 'A',
        StatusCode::Deleted => 'D',
        StatusCode::Renamed => 'R',
        StatusCode::Copied => 'C',
        StatusCode::Unmerged => 'U',
        StatusCode::TypeChanged => 'T',
        StatusCode::Untracked => '?',
        StatusCode::Ignored => '!',
    }
}

/// The status code a porcelain letter stands for, if any: the inverse of
/// `code_letter`.
pub open spec fn letter_code(c: char) -> Option<StatusCode> {
    if exists|code: StatusCode| code_letter(code) == c {
        Some(choose|code: StatusCode| code_letter(code) == c)
    } else {
        None
    }
}

/// No two status codes share a letter.
pub proof fn lemma_code_letter_injective(a: StatusCode, b: StatusCode)
    ensures
        code_letter(a) == code_letter(b) ==> a == b,
{
}

impl StatusCode {
    /// The status code written as `c`, or `None` for any other character.
    pub fn from_char(c: char) -> (r: Option<Self>)
        ensures
            r == letter_code(c),
    {
        let r = match c {
            ' ' => Some(StatusCode::Unmodified),
            'M' => Some(StatusCode::Modified),
            'A' => Some(StatusCode::Added),
            'D' => Some(StatusCode::Deleted),
            'R' => Some(StatusCode::Renamed),
            'C' => Some(StatusCode::Copied),
            'U' => Some(StatusCode::Unmerged),
            'T' => Some(StatusCode::TypeChanged),
            '?' => Some(StatusCode::Untracked),
            '!' => Some(StatusCode::Ignored),
            _ => None,
        };
        proof {
            match r {
                Some(code) => {
                    assert(code_letter(code) == c);
                    let other = choose|code: StatusCode| code_letter(code) == c;
                    lemma_code_letter_injective(code, other);
                },
                None => {
                    assert forall|code: StatusCode| code_letter(code) != c by {
                        match code {
                            _ => {},
                        }
                    }
                },
            }
        }
        r
    }

    /// The porcelain letter of this status code.
    pub fn as_char(self) -> (c: char)
        ensures
            c == code_letter(self),
    {
        match self {
            StatusCode::Unmodified => ' ',
            StatusCode::Modified => 'M',
            StatusCode::Added => 'A',
            StatusCode::Deleted => 'D',
            StatusCode::Renamed => 'R',
            StatusCode::Copied => 'C',
            StatusCode::Unmerged => 'U',
            StatusCode::TypeChanged => 'T',
            StatusCode::Untracked => '?',
            StatusCode::Ignored => '!',
        }
    }
}

/// Reading back the letter of a status code gives the same code, and a
/// letter that reads as a code is that code's letter.
pub proof fn lemma_status_letters_round_trip(code: StatusCode, c: char)
    ensures
        letter_code(code_letter(code)) == Some(code),
        letter_code(c) == Some(code) ==> code_letter(code) == c,
{
    let other = choose|x: StatusCode| code_letter(x) == code_letter(code);
    lemma_code_letter_injective(code, other);
}

/// A porcelain `XY` pair: index status plus worktree status.
#[derive(Debug, Clone, Copy, PartialEq, Eq, Structural)]
pub struct GitStatus {
    pub index: StatusCode,
    pub worktree: StatusCode,
}

/// The message of the parse error for a status field of the wrong length.
pub open spec fn status_length_message(len: nat) -> Seq<char> {
    "expected 2 status bytes, got "@ + decimal(len)
}

/// The `Debug` text of a byte read as a character: stated for ASCII,
/// named beyond it.
pub open spec fn byte_debug(b: u8) -> Seq<char> {
    if b < 128 {
        ascii_char_debug(b as char)
    } else {
        char_debug(b as char)
    }
}

/// The message of the parse error for an unknown index letter.
pub open spec fn unknown_index_message(b: u8) -> Seq<char> {
    "unknown index status code "@ + byte_debug(b)
}

/// The message of the parse error for an unknown worktree letter.
pub open spec fn unknown_worktree_message(b: u8) -> Seq<char> {
    "unknown worktree status code "@ + byte_debug(b)
}

/// What parsing a two-byte status field gives: the pair when both bytes are
/// status letters, else the message of the first problem found.
pub open spec fn parse_status_spec(xy: Seq<u8>) -> Result<GitStatus, Seq<char>> {
    if xy.len() != 2 {
        Err(status_length_message(xy.len()))
    } else if letter_code(xy[0] as char) is None {
        Err(unknown_index_message(xy[0]))
    } else if letter_code(xy[1] as char) is None {
        Err(unknown_worktree_message(xy[1]))
    } else {
        Ok(
            GitStatus {
                index: letter_code(xy[0] as char)->0,
                worktree: letter_code(xy[1] as char)->0,
            },
        )
    }
}

/// A result of the library, compared with the spec-level result it stands
/// for: equal on success, a parse error with the same message on failure.
pub open spec fn parse_result_matches<T>(
    r: Result<T, GitChaiError>,
    expected: Result<T, Seq<char>>,
) -> bool {
    match expected {
        Ok(v) => r == Ok::<T, GitChaiError>(v),
        Err(m) => r matches Err(GitChaiError::ParseError(msg)) && msg@ == m,
    }
}

impl GitStatus {
    /// Parse a porcelain `XY` field.
    pub fn parse(xy: &[u8]) -> (r: Result<Self, GitChaiError>)
        ensures
            parse_result_matches(r, parse_status_spec(xy@)),
    {
        if xy.len() != 2 {
            let mut msg = String::from_str("expected 2 status bytes, got ");
            let n = decimal_text(xy.len());
            msg.append(n.as_str());
            return Err(GitChaiError::ParseError(msg));
        }
        let index = match StatusCode::from_char(xy[0] as char) {
            Some(code) => code,
            None => {
                let mut msg = String::from_str("unknown index status code ");
                let d = char_debug_text(xy[0] as char);
                msg.append(d.as_str());
                return Err(GitChaiError::ParseError(msg));
            },
        };
        let worktree = match StatusCode::from_char(xy[1] as char) {
            Some(code) => code,
            None => {
                let mut msg = String::from_str("unknown worktree status code ");
                let d = char_debug_text(xy[1] as char);
                msg.append(d.as_str());
                return Err(GitChaiError::ParseError(msg));
            },
        };
        Ok(GitStatus { index, worktree })
    }

    /// The two letters of the pair, index first: `"M "`, `" ?"`.
    pub fn to_string(&self) -> (s: String)
        ensures
            s@ == seq![code_letter(self.index), code_letter(self.worktree)],
    {
        let mut s = String::new();
        push_char(&mut s, self.index.as_char());
        push_char(&mut s, self.worktree.as_char());
        s
    }
}

/// Writing a status pair out as its two letters and parsing them back gives
/// the same pair.
pub proof fn lemma_status_pair_round_trip(s: GitStatus)
    ensures
        parse_status_spec(seq![code_letter(s.index) as u8, code_letter(s.worktree) as u8])
            == Ok::<GitStatus, Seq<char>>(s),
{
    lemma_status_letters_round_trip(s.index, code_letter(s.index));
    lemma_status_letters_round_trip(s.worktree, code_letter(s.worktree));
    let xy = seq![code_letter(s.index) as u8, code_letter(s.worktree) as u8];
    assert(xy[0] as char == code_letter(s.index)) by {
        match s.index {
            _ => {},
        }
    }
    assert(xy[1] as char == code_letter(s.worktree)) by {
        match s.worktree {
            _ => {},
        }
    }
}

/// What a change means for a commit message.
#[derive(Debug, Clone, Copy, PartialEq, Eq, Structural)]
pub enum ChangeType {
    Add,
    Modify,
    Delete,
    Rename,
    Copy,
}

/// The change type of a status pair, or `None` for paths that must not be
/// committed (unmerged or ignored on either side). Renames and copies are
/// read from the index side; an untracked worktree is an addition; otherwise
/// the worktree side decides unless it is unmodified, in which case the
/// index side does.
pub open spec fn change_type_of(status: GitStatus) -> Option<ChangeType> {
    if status.index == StatusCode::Ignored || status.worktree == StatusCode::Ignored {
        None
    } else if status.index == StatusCode::Unmerged || status.worktree == StatusCode::Unmerged {
        None
    } else if status.index == StatusCode::Renamed {
        Some(ChangeType::Rename)
    } else if status.index == StatusCode::Copied {
        Some(ChangeType::Copy)
    } else if status.worktree == StatusCode::Untracked {
        Some(ChangeType::Add)
    } else {
        let effective = if status.worktree != StatusCode::Unmodified {
            status.worktree
        } else {
            status.index
        };
        match effective {
            StatusCode::Added => Some(ChangeType::Add),
            StatusCode::Modified | StatusCode::TypeChanged => Some(ChangeType::Modify),
            StatusCode::Deleted => Some(ChangeType::Delete),
            _ => None,
        }
    }
}

/// The word a commit message uses for a change type.
pub open spec fn change_word(t: ChangeType) -> Seq<char> {
    match t {
        ChangeType::Add => "add"@,
        ChangeType::Modify => "mod"@,
        ChangeType::Delete => "del"@,
        ChangeType::Rename => "rename"@,
        ChangeType::Copy => "copy"@,
    }
}

impl ChangeType {
    /// Derive a change type from a porcelain status pair, or `None` for
    /// paths that must not be committed (unmerged, ignored).
    pub fn from_status(status: &GitStatus) -> (r: Option<Self>)
        ensures
            r == change_type_of(*status),
            status.index == StatusCode::Unmerged || status.worktree == StatusCode::Unmerged
                ==> r is None,
            status.index == StatusCode::Ignored || status.worktree == StatusCode::Ignored
                ==> r is None,
    {
        if status.index == StatusCode::Ignored || status.worktree == StatusCode::Ignored {
            return None;
        }
        if status.index == StatusCode::Unmerged || status.worktree == StatusCode::Unmerged {
            return None;
        }
        if status.index == StatusCode::Renamed {
            return Some(ChangeType::Rename);
        }
        if status.index == StatusCode::Copied {
            return Some(ChangeType::Copy);
        }
        if status.worktree == StatusCode::Untracked {
            return Some(ChangeType::Add);
        }
        let effective = if status.worktree != StatusCode::Unmodified {
            status.worktree
        } else {
            status.index
        };
        match effective {
            StatusCode::Added => Some(ChangeType::Add),
            StatusCode::Modified | StatusCode::TypeChanged => Some(ChangeType::Modify),
            StatusCode::Deleted => Some(ChangeType::Delete),
            _ => None,
        }
    }

    /// The word for this change type: `add`, `mod`, `del`, `rename`, `copy`.
    pub fn to_string(&self) -> (s: String)
        ensures
            s@ == change_word(*self),
    {
        match self {
            ChangeType::Add => String::from_str("add"),
            ChangeType::Modify => String::from_str("mod"),
            ChangeType::Delete => String::from_str("del"),
            ChangeType::Rename => String::from_str("rename"),
            ChangeType::Copy => String::from_str("copy"),
        }
    }
}

} // verus!

verus! {

/// How a status pair that may be committed is read. When neither side is
/// unmerged or ignored and the index side is neither a rename nor a copy:
/// an untracked worktree is an addition; otherwise the worktree side
/// decides whatever the index side is (`A` an addition, `M` or `T` a
/// modification, `D` a deletion, so `AM` is a modification and `MD` a
/// deletion), and an unmodified worktree leaves it to the index side. A
/// renamed or copied index side is a rename or a copy, whatever the
/// worktree side, and an unmerged or ignored side never commits.
pub proof fn law_change_type_by_side(s: GitStatus)
    ensures
        (s.index == StatusCode::Unmerged || s.worktree == StatusCode::Unmerged || s.index
            == StatusCode::Ignored || s.worktree == StatusCode::Ignored) ==> change_type_of(s)
            is None,
        ({
            let open = s.index != StatusCode::Unmerged && s.worktree != StatusCode::Unmerged
                && s.index != StatusCode::Ignored && s.worktree != StatusCode::Ignored;
            let plain = open && s.index != StatusCode::Renamed && s.index != StatusCode::Copied;
            &&& open && s.index == StatusCode::Renamed ==> change_type_of(s) == Some(
                ChangeType::Rename,
            )
            &&& open && s.index == StatusCode::Copied ==> change_type_of(s) == Some(
                ChangeType::Copy,
            )
            &&& plain && s.worktree == StatusCode::Untracked ==> change_type_of(s) == Some(
                ChangeType::Add,
            )
            &&& plain && s.worktree == StatusCode::Added ==> change_type_of(s) == Some(
                ChangeType::Add,
            )
            &&& plain && (s.worktree == StatusCode::Modified || s.worktree
                == StatusCode::TypeChanged) ==> change_type_of(s) == Some(ChangeType::Modify)
            &&& plain && s.worktree == StatusCode::Deleted ==> change_type_of(s) == Some(
                ChangeType::Delete,
            )
            &&& plain && s.worktree == StatusCode::Unmodified && s.index == StatusCode::Added
                ==> change_type_of(s) == Some(ChangeType::Add)
            &&& plain && s.worktree == StatusCode::Unmodified && (s.index == StatusCode::Modified
                || s.index == StatusCode::TypeChanged) ==> change_type_of(s) == Some(
                ChangeType::Modify,
            )
            &&& plain && s.worktree == StatusCode::Unmodified && s.index == StatusCode::Deleted
                ==> change_type_of(s) == Some(ChangeType::Delete)
            &&& plain && s.worktree == StatusCode::Unmodified && s.index
                == StatusCode::Unmodified ==> change_type_of(s) is None
        }),
{
}

} // verus!
