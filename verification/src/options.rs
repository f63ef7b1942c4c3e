//! Where the native library comes from, as the build-orchestration
//! layer decides it from its environment. The caller reads the
//! environment and hands plain values in; the decisions live here.

use vstd::prelude::*;

use crate::text::str_eq;

verus! {

/// How the native library is obtained.
#[derive(Debug, Clone, Copy, PartialEq, Eq)]
pub enum Mode {
    /// Try a system-provided library first, else build from source.
    Auto,
    /// Only link a system-provided library.
    SystemOnly,
    /// Only build from source.
    BuildOnly,
}

/// The mode a value of the mode-selection environment variable names:
/// an absent or empty value means automatic; anything unrecognized is
/// refused.
pub open spec fn spec_mode(v: Option<Seq<char>>) -> Option<Mode> {
    match v {
        None => Some(Mode::Auto),
        Some(s) => if s.len() == 0 || s == "auto"@ {
            Some(Mode::Auto)
        } else if s == "system"@ {
            Some(Mode::SystemOnly)
        } else if s == "build"@ {
            Some(Mode::BuildOnly)
        } else {
            None
        },
    }
}

/// Decides the build mode from the value of the mode-selection
/// environment variable, which the caller reads and hands in (`None`
/// when the variable is unset). `None` comes back for a value that
/// names no mode.
pub fn mode(value: Option<&str>) -> (r: Option<Mode>)
    ensures
        r == spec_mode(value.deep_view()),
{
    match value {
        None => Some(Mode::Auto),
        Some(s) => {
            if s.unicode_len() == 0 {
                Some(Mode::Auto)
            } else if str_eq(s, "auto") {
                Some(Mode::Auto)
            } else if str_eq(s, "system") {
                Some(Mode::SystemOnly)
            } else if str_eq(s, "build") {
                Some(Mode::BuildOnly)
            } else {
                None
            }
        },
    }
}

/// An environment value with an empty value treated as absent.
pub open spec fn spec_nonempty(v: Option<Seq<char>>) -> Option<Seq<char>> {
    match v {
        Some(s) => if s.len() > 0 {
            Some(s)
        } else {
            None
        },
        None => None,
    }
}

/// Passes a read environment value through, treating an empty value
/// as if the variable were unset.
pub fn get_rerun_nonempty(value: Option<String>) -> (r: Option<String>)
    ensures
        r.deep_view() == spec_nonempty(value.deep_view()),
{
    match value {
        Some(s) => {
            if s.as_str().unicode_len() > 0 {
                Some(s)
            } else {
                None
            }
        },
        None => None,
    }
}

} // verus!
