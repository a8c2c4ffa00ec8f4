use vstd::prelude::*;
use glam::DVec3;

verus! {

/// glam's `DVec3`, used as a linear RGB triple. The library stores and moves
/// colours and never looks inside one.
#[verifier::external_type_specification]
#[verifier::external_body]
pub struct ExDVec3(glam::DVec3);

/// Whether a colour is glam's `DVec3::ZERO`, the colour with no light in any
/// channel.
pub uninterp spec fn is_black(c: DVec3) -> bool;

/// Hands out glam's constant `DVec3::ZERO`. Trusted: the result is the colour
/// that `is_black` names.
#[verifier::external_body]
pub(crate) fn black() -> (c: DVec3)
    ensures
        is_black(c),
{
    DVec3::ZERO
}

} // verus!
