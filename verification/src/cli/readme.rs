//! The README runner's command line.
use vstd::prelude::*;
use crate::benchmarks::manifest::str_eq;

verus! {

/// The section the README runner is limited to: the value after
/// `--section`, or else the first argument; none where there are no
/// arguments (or `--section` has no value).
pub open spec fn spec_parse_section(args: Seq<Seq<char>>) -> Option<Seq<char>> {
    if args.len() == 0 {
        None
    } else if args[0] == "--section"@ {
        if args.len() > 1 {
            Some(args[1])
        } else {
            None
        }
    } else {
        Some(args[0])
    }
}

pub fn parse_section(args: &[String]) -> (r: Option<&str>)
    ensures
        match r {
            Some(s) => spec_parse_section(args@.map_values(|a: String| a@)) == Some(s@),
            None => spec_parse_section(args@.map_values(|a: String| a@)) is None,
        },
{
    let ghost views = args@.map_values(|a: String| a@);
    if args.len() == 0 {
        return None;
    }
    assert(views[0] == args@[0]@);
    if str_eq(args[0].as_str(), "--section") {
        if args.len() > 1 {
            assert(views[1] == args@[1]@);
            return Some(args[1].as_str());
        }
        return None;
    }
    Some(args[0].as_str())
}

} // verus!
