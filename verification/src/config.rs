//! The search request: what to look for, where, and under which comparison
//! policy.

use vstd::prelude::*;

verus! {

/// A resolved search request. `case_sensitive` selects between exact and
/// case-folded containment; the engine itself holds no policy.
pub struct Config {
    pub query: String,
    pub filename: String,
    pub case_sensitive: bool,
}

impl Config {
    /// Builds the request from the argument list (program name, query, file
    /// path) and the presence of the case-insensitivity toggle in the
    /// environment, which the caller reads and passes in. Fewer than three
    /// arguments are an error and yield no request.
    pub fn new(args: &[String], env_case_insensitive: bool) -> (r: Result<Config, &'static str>)
        ensures
            args@.len() < 3 <==> r is Err,
            r matches Ok(c) ==> {
                &&& c.query@ == args@[1]@
                &&& c.filename@ == args@[2]@
                &&& c.case_sensitive == !env_case_insensitive
            },
            r matches Err(m) ==> m@ == "not enough args were passed in by user"@,
    {
        if args.len() < 3 {
            return Err("not enough args were passed in by user");
        }
        let query = args[1].clone();
        let filename = args[2].clone();
        Ok(Config { query, filename, case_sensitive: !env_case_insensitive })
    }
}

} // verus!
