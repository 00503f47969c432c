//! What a run decides before and after its work: what it opens on, how wide it
//! may be, and what it prints.

use vstd::prelude::*;
use vstd::string::*;

use crate::k8s::pods::held;
use crate::text;
use crate::text::debug_form;
use crate::theme::seen;

verus! {

/// What to do before the first frame of the dashboard.
#[derive(Debug)]
pub struct Opening {
    /// The cluster to check the credentials of, if they are to be checked.
    pub preflight: Option<String>,
    /// The cluster to start fetching, if there is one.
    pub fetch: Option<String>,
}

/// What was asked for is gone, in words.
pub open spec fn disappeared_text(name: Seq<char>) -> Seq<char> {
    "context "@ + debug_form(name) + " disappeared while starting up"@
}

/// Decide what the dashboard opens on.
///
/// `requested` is the context that was asked for, `found` whether it could be
/// selected, and `selected` the context that is selected now. The credentials are
/// checked while there is still an ordinary terminal to ask a question on, unless
/// logging in was ruled out. With nothing selected there is nothing to check or
/// fetch.
pub fn opening(
    requested: Option<&str>,
    found: bool,
    selected: Option<&str>,
    may_login: bool,
) -> (opening: Result<Opening, String>)
    ensures
        match opening {
            Err(problem) => {
                &&& requested is Some
                &&& !found
                &&& problem@ == disappeared_text(requested->0@)
            },
            Ok(opening) => {
                &&& requested is Some ==> found
                &&& held(opening.fetch) == seen(selected)
                &&& held(opening.preflight) == if may_login {
                    seen(selected)
                } else {
                    None
                }
            },
        },
{
    if let Some(name) = requested {
        if !found {
            return Err(
                "context ".to_owned().concat(text::quoted(name).as_str()).concat(
                    " disappeared while starting up",
                ),
            );
        }
    }
    let preflight = if may_login {
        match selected {
            Some(context) => Some(context.to_owned()),
            None => None,
        }
    } else {
        None
    };
    let fetch = match selected {
        Some(context) => Some(context.to_owned()),
        None => None,
    };
    Ok(Opening { preflight, fetch })
}

/// How wide a listing may be: the width of the terminal, where stdout is one.
///
/// A terminal's width is not asked of a pipe: that would be the width of the
/// terminal the command was typed on, and narrow what a script reads.
#[must_use]
pub fn listing_cols(stdout_is_terminal: bool, size: Option<u16>) -> (cols: Option<u16>)
    ensures
        cols == if stdout_is_terminal {
            size
        } else {
            None
        },
{
    if stdout_is_terminal {
        size
    } else {
        None
    }
}

/// What a command prints: its output on a line of its own, and nothing at all
/// where there is none, so that an empty result pipes cleanly.
#[must_use]
pub fn printed(output: &str) -> (text: String)
    ensures
        text@ == if output@.len() == 0 {
            seq![]
        } else {
            output@.push('\n')
        },
{
    let mut text = output.to_owned();
    if output.is_empty() {
        assert(text@ =~= seq![]);
        return text;
    }
    text.push('\n');
    text
}

} // verus!
