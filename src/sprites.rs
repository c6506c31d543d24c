use vstd::prelude::*;

verus! {

/// Why sprites are not available yet.
#[derive(Debug, Clone, Copy, PartialEq, Eq, Structural)]
pub enum Error {
    AssetLoadingIncomplete,
}

} // verus!
