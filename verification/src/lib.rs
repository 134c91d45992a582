use vstd::prelude::*;

pub mod text;
pub mod tree;
pub mod results;
pub mod resolver;
pub mod display;
pub mod laws;
pub mod query;
pub mod machine;
pub mod refinement;

verus! {

/// The fixed link-local address where the instance-metadata service listens.
pub open spec fn spec_metadata_url() -> Seq<char> {
    "http://169.254.169.254/"@
}

/// Base URL of the instance-metadata service.
pub fn metadata_url() -> (r: &'static str)
    ensures
        r@ == spec_metadata_url(),
{
    "http://169.254.169.254/"
}

} // verus!
