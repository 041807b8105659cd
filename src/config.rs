use vstd::prelude::*;

use crate::search::{matching_lines, matching_lines_folded, search, search_case_insensitive};
use crate::text::views;

verus! {

/// Fewest entries an argument list needs: the program's name, the query and
/// the path of the file to search.
pub const MIN_ARGS: usize = 3;

/// Why a run's settings could not be built.
#[derive(Debug, Clone, Copy, PartialEq, Eq, Structural)]
pub enum ConfigError {
    /// The argument list was shorter than `required`.
    InsufficientArguments { received: usize, required: usize },
}

/// The settings of one run: what to look for, where, and whether case counts.
pub struct Config<'a> {
    pub query: &'a String,
    pub filename: &'a String,
    pub case_sensitive: bool,
}

impl<'a> Config<'a> {
    /// Takes the query from `args[1]` and the path from `args[2]`; the
    /// caller decides whether the search heeds case.
    pub fn new(args: &'a [String], case_sensitive: bool) -> (r: Result<Config<'a>, ConfigError>)
        ensures
            match r {
                Ok(c) => {
                    &&& args@.len() >= MIN_ARGS
                    &&& c.query@ == args@[1]@
                    &&& c.filename@ == args@[2]@
                    &&& c.case_sensitive == case_sensitive
                },
                Err(e) => {
                    &&& args@.len() < MIN_ARGS
                    &&& e == ConfigError::InsufficientArguments {
                        received: args@.len() as usize,
                        required: MIN_ARGS,
                    }
                },
            },
    {
        if args.len() < MIN_ARGS {
            return Err(ConfigError::InsufficientArguments { received: args.len(), required: MIN_ARGS });
        }
        let query = &args[1];
        let filename = &args[2];
        Ok(Config { query, filename, case_sensitive })
    }
}

/// The lines of `contents` that the run set up by `config` prints, in order.
pub fn find_matches<'a>(config: &Config, contents: &'a str) -> (r: Vec<&'a str>)
    ensures
        views(r@) == if config.case_sensitive {
            matching_lines(config.query@, contents@)
        } else {
            matching_lines_folded(config.query@, contents@)
        },
{
    if config.case_sensitive {
        search(config.query.as_str(), contents)
    } else {
        search_case_insensitive(config.query.as_str(), contents)
    }
}

} // verus!
