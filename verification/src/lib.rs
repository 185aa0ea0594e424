//! Verified core of makeppkg: the text processing of PKGBUILD and .SRCINFO
//! files, the choice of checksum algorithm and patches, and the decisions of
//! the patching run.
use vstd::prelude::*;

pub mod text;
pub mod srcinfo;
pub mod digests;
pub mod patches;
pub mod pkgbuild;
pub mod args;
pub mod patch;

verus! {
} // verus!
