//! What the Playground calls itself as the publisher of a snapshot.

use vstd::prelude::*;

use crate::text::followed;

verus! {

/// What the Playground calls itself as the publisher at `node`:
/// `playground — <node>`.
pub fn source(node: &str) -> (said: String)
    ensures
        said@ == "playground — "@ + node@,
{
    followed("playground — ", node)
}

} // verus!
