//! Run configuration: the query, the matching mode, and the text source,
//! resolved from plain values that the caller supplies (the argument list,
//! whether standard input is an interactive terminal, and the result of
//! looking up the `IGNORE_CASE` environment variable).

use vstd::prelude::*;

verus! {

use vstd::slice::slice_index_get;

/// Where the input text comes from: standard input, or a named file.
#[derive(Debug)]
pub enum TextSource {
    Stdin,
    File(String),
}

/// Missing arguments: how many the selected source needed, and how many came.
#[derive(Clone, Copy, Debug, PartialEq, Eq, Structural)]
pub struct ConfigError {
    pub required: usize,
    pub actual: usize,
}

/// A resolved run configuration.  Immutable once built.
#[derive(Debug)]
pub struct Config {
    pub query: String,
    pub ignore_case: bool,
    pub source: TextSource,
}

/// Arguments a command line must offer: the program name and the query, plus
/// a file path when standard input is an interactive terminal and so carries
/// no piped text.
pub open spec fn required_args(interactive: bool) -> int {
    if interactive {
        3
    } else {
        2
    }
}

impl Config {
    /// Builds a configuration from the argument list.  `interactive` says
    /// whether standard input is attached to an interactive terminal, and
    /// `ignore_case_env` is the value of the `IGNORE_CASE` environment
    /// variable, if it is set; only its presence matters.
    pub fn build(args: &[String], interactive: bool, ignore_case_env: Option<String>) -> (r:
        Result<Config, ConfigError>)
        ensures
            r is Ok <==> args@.len() >= required_args(interactive),
            r matches Ok(c) ==> {
                &&& c.query@ == args@[1]@
                &&& c.ignore_case == (ignore_case_env is Some)
                &&& if interactive {
                    c.source matches TextSource::File(p) && p@ == args@[2]@
                } else {
                    c.source is Stdin
                }
            },
            r matches Err(e) ==> e.required == required_args(interactive) && e.actual == args@.len(),
    {
        let source = if !interactive {
            match Self::check_args_count(args, 2) {
                Ok(()) => TextSource::Stdin,
                Err(e) => {
                    return Err(e);
                },
            }
        } else {
            match Self::check_args_count(args, 3) {
                Ok(()) => TextSource::File(slice_index_get(args, 2).clone()),
                Err(e) => {
                    return Err(e);
                },
            }
        };
        let query = slice_index_get(args, 1).clone();
        let ignore_case = ignore_case_env.is_some();
        Ok(Config { query, ignore_case, source })
    }

    /// Accepts an argument list exactly when it holds at least `required`
    /// entries; otherwise reports the required and the actual count.
    pub fn check_args_count(args: &[String], required: usize) -> (r: Result<(), ConfigError>)
        ensures
            r is Ok <==> args@.len() >= required,
            r matches Err(e) ==> e.required == required && e.actual == args@.len(),
    {
        if args.len() < required {
            return Err(ConfigError { required, actual: args.len() });
        }
        Ok(())
    }
}

} // verus!
