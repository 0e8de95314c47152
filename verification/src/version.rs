//! Version information for the crate.

use vstd::prelude::*;

verus! {

/// The version triple of this crate, as named in its package manifest.
pub open spec fn spec_short() -> Seq<char> {
    "0.1.0"@
}

/// Commit identifier of the sources this build was made from. No source
/// control metadata is available to the build, so the identifier is fixed.
pub open spec fn spec_hash() -> Seq<char> {
    "UNKNOWN"@
}

/// Major version component.
///
/// It is increased every time a release presents an incompatible API change.
pub fn major() -> (r: u64)
    ensures
        r == 0,
{
    0
}

/// Minor version component.
///
/// It is increased every time a release adds functionality in a
/// backwards-compatible manner.
pub fn minor() -> (r: u64)
    ensures
        r == 1,
{
    1
}

/// Patch version component.
///
/// It is increased every time a release provides only backwards-compatible
/// bugfixes.
pub fn patch() -> (r: u64)
    ensures
        r == 0,
{
    0
}

/// Version as presented in the package manifest, e.g. `0.1.0`.
pub fn short() -> (r: String)
    ensures
        r@ == spec_short(),
{
    "0.1.0".to_string()
}

/// Commit hash (short) of the sources used by this build. The build carries
/// no source-control metadata, so the placeholder `UNKNOWN` is returned.
pub fn hash() -> (r: String)
    ensures
        r@ == spec_hash(),
{
    "UNKNOWN".to_string()
}

/// Version followed by the commit hash, e.g. `0.1.0 - UNKNOWN`.
pub fn long() -> (r: String)
    ensures
        r@ == spec_short() + " - "@ + spec_hash(),
{
    proof {
        reveal_strlit("0.1.0 - UNKNOWN");
        reveal_strlit("0.1.0");
        reveal_strlit(" - ");
        reveal_strlit("UNKNOWN");
        assert(("0.1.0 - UNKNOWN")@ =~= spec_short() + " - "@ + spec_hash());
    }
    "0.1.0 - UNKNOWN".to_string()
}

/// Version together with the source description, e.g. `0.1.0 (UNKNOWN)`.
pub fn full() -> (r: String)
    ensures
        r@ == spec_short() + " ("@ + spec_hash() + ")"@,
{
    proof {
        reveal_strlit("0.1.0 (UNKNOWN)");
        reveal_strlit("0.1.0");
        reveal_strlit(" (");
        reveal_strlit(")");
        reveal_strlit("UNKNOWN");
        assert(("0.1.0 (UNKNOWN)")@ =~= spec_short() + " ("@ + spec_hash() + ")"@);
    }
    "0.1.0 (UNKNOWN)".to_string()
}

} // verus!
