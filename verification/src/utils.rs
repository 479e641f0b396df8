//! Where the scheduler is found.

use vstd::prelude::*;
use vstd::string::StringExecFns;

verus! {

/// The address of the public scheduler.
pub const DEFAULT_SCHEDULER_URI: &'static str = "https://scheduler.gl.blckstrm.com:2601";

/// The address of the scheduler, given what the environment variable
/// holds and what the file that it names holds: the public scheduler
/// where the variable is not set, the content of the file where the
/// variable names one, else the variable itself.
pub open spec fn scheduler_uri_of(env: Option<Seq<char>>, file: Option<Seq<char>>) -> Seq<char> {
    match env {
        None => DEFAULT_SCHEDULER_URI@,
        Some(var) => match file {
            Some(content) => content,
            None => var,
        },
    }
}

/// The text of what was read, if anything was.
pub open spec fn text_of(read: Option<String>) -> Option<Seq<char>> {
    match read {
        Some(s) => Some(s@),
        None => None,
    }
}

/// The address of the scheduler. `env` is the value of the environment
/// variable, if it is set; `file` is the content of the file that the
/// variable names, if it names one.
pub fn scheduler_uri_from(env: Option<String>, file: Option<String>) -> (uri: String)
    ensures
        uri@ == scheduler_uri_of(text_of(env), text_of(file)),
{
    match env {
        None => String::from_str(DEFAULT_SCHEDULER_URI),
        Some(var) => match file {
            Some(content) => content,
            None => var,
        },
    }
}

} // verus!
