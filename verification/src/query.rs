use vstd::prelude::*;
use crate::resolver::{get_args_from_framework, resolve_roots};
use crate::results::ResultMap;
use crate::laws::lemma_roots_exhaustive_args;
use crate::tree::MetadataTree;
use crate::text::views;

verus! {

/// What one invocation ends in: the resolved values to print, or a usage
/// error naming the flags that matched no leaf, beside every legal option.
pub enum Outcome {
    Values { map: ResultMap },
    UnknownOptions { unknown: Vec<String>, legal: ResultMap },
}

/// One invocation against the service: with no flags, everything is listed;
/// otherwise the requested options are resolved, and if any flag matched no
/// leaf anywhere, a single exhaustive fallback pass gathers the legal option
/// set for the usage error.
pub fn run_query(tree: &MetadataTree, version: &str, args: Vec<String>) -> (r: Outcome)
    ensures
        ({
            let requested = views(args@);
            if requested.len() == 0 {
                match r {
                    Outcome::Values { map } => map.wf() && map@ == resolve_roots(
                        tree@,
                        version@,
                        requested,
                        true,
                    ).map,
                    _ => false,
                }
            } else {
                let w = resolve_roots(tree@, version@, requested, false);
                if w.args.len() == 0 {
                    match r {
                        Outcome::Values { map } => map.wf() && map@ == w.map,
                        _ => false,
                    }
                } else {
                    match r {
                        Outcome::UnknownOptions { unknown, legal } => {
                            &&& views(unknown@) == w.args
                            &&& legal.wf()
                            &&& legal@ == resolve_roots(tree@, version@, w.args, true).map
                        },
                        _ => false,
                    }
                }
            }
        }),
{
    let mut args = args;
    if args.len() == 0 {
        proof {
            assert(views(args@).len() == 0);
        }
        let map = get_args_from_framework(tree, version, &mut args, true);
        Outcome::Values { map }
    } else {
        let ghost requested = views(args@);
        let map = get_args_from_framework(tree, version, &mut args, false);
        if args.len() == 0 {
            proof {
                assert(views(args@).len() == 0);
            }
            Outcome::Values { map }
        } else {
            let ghost leftover = views(args@);
            let legal = get_args_from_framework(tree, version, &mut args, true);
            proof {
                lemma_roots_exhaustive_args(tree@, version@, leftover);
            }
            Outcome::UnknownOptions { unknown: args, legal }
        }
    }
}

} // verus!
