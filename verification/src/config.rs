//! Settings taken from the environment.
use vstd::prelude::*;

use crate::text::{trim_white, trimmed};

verus! {

/// The logging filter: the value of `RUST_LOG` when it holds more than
/// white space (an empty value would silently mute all output), otherwise
/// `debug` when verbose output is asked for and `info` when not.
pub open spec fn log_filter_text(rust_log: Option<Seq<char>>, verbose: bool) -> Seq<char> {
    match rust_log {
        Some(v) if trim_white(v).len() > 0 => v,
        _ => if verbose {
            "debug"@
        } else {
            "info"@
        },
    }
}

/// The logging filter for the value of `RUST_LOG`, if it is set.
pub fn log_filter(rust_log: Option<&str>, verbose: bool) -> (r: String)
    ensures
        r@ == log_filter_text(
            match rust_log {
                Some(v) => Some(v@),
                None => None,
            },
            verbose,
        ),
{
    if let Some(v) = rust_log {
        let t = trimmed(v);
        if t.unicode_len() > 0 {
            return String::from_str(v);
        }
    }
    if verbose {
        String::from_str("debug")
    } else {
        String::from_str("info")
    }
}

} // verus!
