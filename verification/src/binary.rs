//! Where the executables a run spawns are: the cluster the roll starts, and
//! the node the cluster starts. Both are looked for the same way and both
//! may be named outright: what the variable names, else the executable
//! beside the current one, else one directory up from it (a test runs from
//! `deps/`). What stands where is looked at by the caller; which of it is
//! taken is decided here.

use vstd::prelude::*;

use crate::text::followed;

verus! {

/// The variable that names the node binary outright.
pub const NODE_VARIABLE: &'static str = "XMIP_PLAYGROUND_NODE";

/// The node binary's name, before the platform's executable suffix.
pub const NODE_STEM: &'static str = "xmip-playground-node";

/// The variable that names the cluster binary outright.
/// `XMIP_PLAYGROUND_CLUSTER` is the cluster's own name, so this one is not.
pub const CLUSTER_VARIABLE: &'static str = "XMIP_PLAYGROUND_CLUSTER_BINARY";

/// The cluster binary's name, before the platform's executable suffix.
pub const CLUSTER_STEM: &'static str = "xmip-playground-cluster";

/// Where an executable may stand, as the caller found it.
#[derive(Clone, Debug)]
pub struct Surroundings {
    /// What the variable names, when it is set.
    pub named: Option<String>,
    /// The executable beside the current one, when that is a file.
    pub beside: Option<String>,
    /// The executable one directory up from the current one, when that is a
    /// file.
    pub above: Option<String>,
}

/// The plain value of an optional path.
pub open spec fn path_view(path: Option<String>) -> Option<Seq<char>> {
    match path {
        Some(path) => Some(path@),
        None => None,
    }
}

/// What `found` answers: the first of what was named, what stands beside
/// and what stands above; else why none did.
pub open spec fn lookup(variable: Seq<char>, stem: Seq<char>, around: Surroundings) -> Result<
    Seq<char>,
    Seq<char>,
> {
    match (path_view(around.named), path_view(around.beside), path_view(around.above)) {
        (Some(named), _, _) => Ok(named),
        (None, Some(beside), _) => Ok(beside),
        (None, None, Some(above)) => Ok(above),
        (None, None, None) => Err(
            "no "@ + stem + " beside the playground; build it, or set "@ + variable,
        ),
    }
}

/// The executable called `stem`: what `variable` named, else what stands
/// beside the current executable, else one directory up from it.
fn found(variable: &str, stem: &str, around: &Surroundings) -> (result: Result<String, String>)
    ensures
        match (result, lookup(variable@, stem@, *around)) {
            (Ok(path), Ok(expected)) => path@ == expected,
            (Err(said), Err(expected)) => said@ == expected,
            _ => false,
        },
{
    if let Some(named) = &around.named {
        return Ok(named.clone());
    }
    if let Some(beside) = &around.beside {
        return Ok(beside.clone());
    }
    if let Some(above) = &around.above {
        return Ok(above.clone());
    }
    let mut said = followed("no ", stem);
    said.append(" beside the playground; build it, or set ");
    said.append(variable);
    Err(said)
}

/// The node binary: what `XMIP_PLAYGROUND_NODE` names, else beside the
/// current executable, else one directory up from it; refused when none of
/// those is a file.
pub fn node_binary(around: &Surroundings) -> (result: Result<String, String>)
    ensures
        match (result, lookup(NODE_VARIABLE@, NODE_STEM@, *around)) {
            (Ok(path), Ok(expected)) => path@ == expected,
            (Err(said), Err(expected)) => said@ == expected,
            _ => false,
        },
{
    found(NODE_VARIABLE, NODE_STEM, around)
}

/// The cluster binary, found the same way under its own variable,
/// `XMIP_PLAYGROUND_CLUSTER_BINARY`.
pub fn cluster_binary(around: &Surroundings) -> (result: Result<String, String>)
    ensures
        match (result, lookup(CLUSTER_VARIABLE@, CLUSTER_STEM@, *around)) {
            (Ok(path), Ok(expected)) => path@ == expected,
            (Err(said), Err(expected)) => said@ == expected,
            _ => false,
        },
{
    found(CLUSTER_VARIABLE, CLUSTER_STEM, around)
}

} // verus!
