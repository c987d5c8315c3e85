//! The text around the input line: the prompt, and lines continued with a
//! trailing backslash.
use vstd::prelude::*;
use vstd::string::*;

verus! {

pub const ANSI_BOLD: &'static str = "\x1b[1m";

pub const ANSI_COLOR_CYAN: &'static str = "\x1b[36m";

pub const GREEN: &'static str = "\x1b[32m";

pub const RED: &'static str = "\x1b[31m";

pub const RESET: &'static str = "\x1b[0m";

/// The prompt: the working directory on a line of its own, then an arrow,
/// green where the last line succeeded and red where it failed.
pub open spec fn prompt_model(cwd: Seq<char>, last_ok: bool) -> Seq<char> {
    ANSI_BOLD@ + "RUSHING IN "@ + ANSI_COLOR_CYAN@ + cwd + RESET@ + "\n"@ + ANSI_BOLD@ + (if last_ok {
        GREEN@
    } else {
        RED@
    }) + "\u{2ba1}"@ + RESET@ + "  "@
}

/// The prompt shown before a line is read in `cwd`.
pub fn prompt_text(cwd: &str, last_ok: bool) -> (r: String)
    ensures
        r@ == prompt_model(cwd@, last_ok),
{
    let color = if last_ok {
        GREEN
    } else {
        RED
    };
    let r = String::from_str(ANSI_BOLD).concat("RUSHING IN ").concat(ANSI_COLOR_CYAN).concat(
        cwd,
    ).concat(RESET).concat("\n").concat(ANSI_BOLD).concat(color).concat("\u{2ba1}").concat(
        RESET,
    ).concat("  ");
    r
}

/// Whether a line is continued on the next one: it ends in a backslash.
pub open spec fn continues(line: Seq<char>) -> bool {
    line.len() > 0 && line.last() == '\\'
}

/// The line without its continuation backslash, where it has one.
pub fn strip_continuation(line: &str) -> (r: Option<String>)
    ensures
        continues(line@) ==> (r matches Some(s) && s@ == line@.drop_last()),
        !continues(line@) ==> r is None,
{
    let n = line.unicode_len();
    if n > 0 && line.get_char(n - 1) == '\\' {
        let s = line.substring_char(0, n - 1).to_owned();
        assert(s@ =~= line@.drop_last());
        Some(s)
    } else {
        None
    }
}

} // verus!
