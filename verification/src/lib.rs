//! Combat-log helpers: incremental reading of a growing log, detection and
//! extraction of Mythic+ keys and raid sessions, and the Warcraft Logs
//! rankings and OAuth (PKCE) logic around them.
use vstd::prelude::*;

pub mod text;
pub mod events;
pub mod runs;
pub mod line_endings;
pub mod digests;
pub mod sessions;
pub mod contexts;
pub mod incremental;
pub mod rankings;
pub mod oauth;

verus! {
} // verus!
