//! Command-line configuration: the source and destination roots.

use vstd::prelude::*;

verus! {

/// The two positional arguments of a sync invocation.
#[derive(Debug, PartialEq, Eq)]
pub struct Config {
    pub source: String,
    pub destination: String,
}

impl Config {
    /// Build a configuration from the argument list (program name first).
    /// Fails exactly when fewer than two paths were given.
    #[allow(non_snake_case)]
    pub fn Build(args: &Vec<String>) -> (r: Result<Config, &'static str>)
        ensures
            r is Err <==> args@.len() < 3,
            r matches Ok(c) ==> c.source@ == args@[1]@ && c.destination@ == args@[2]@,
    {
        if args.len() < 3 {
            Err("Less args provided")
        } else {
            Ok(
                Config {
                    source: args[1].clone(),
                    destination: args[2].clone(),
                },
            )
        }
    }
}

} // verus!
