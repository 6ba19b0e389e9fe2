//! Decisions of the surface-surface intersection dispatcher and of the
//! boolean pipeline that do not depend on geometry.

use vstd::prelude::*;

verus! {

/// Method used to intersect a pair of parametric surfaces.
#[derive(Clone, Copy, Debug, PartialEq, Eq, Structural)]
pub enum SsiMethod {
    /// Both surfaces are planar: analytic line intersection.
    PlanePlane,
    /// The first surface is planar, the second curved: signed-distance bisection.
    PlaneCurved,
    /// The first surface is curved, the second planar: bisection with the roles
    /// of the surfaces swapped.
    CurvedPlane,
    /// Both surfaces are curved: Newton-based iso-curve scanning.
    General,
}

/// The method that the dispatcher picks from the planarity of both surfaces.
pub open spec fn spec_method(planar0: bool, planar1: bool) -> SsiMethod {
    if planar0 && planar1 {
        SsiMethod::PlanePlane
    } else if planar0 {
        SsiMethod::PlaneCurved
    } else if planar1 {
        SsiMethod::CurvedPlane
    } else {
        SsiMethod::General
    }
}

/// Picks the intersection method for a pair of surfaces from whether each of
/// them is planar.
pub fn choose_ssi_method(planar0: bool, planar1: bool) -> (m: SsiMethod)
    ensures
        m == spec_method(planar0, planar1),
{
    match (planar0, planar1) {
        (true, true) => SsiMethod::PlanePlane,
        (true, false) => SsiMethod::PlaneCurved,
        (false, true) => SsiMethod::CurvedPlane,
        (false, false) => SsiMethod::General,
    }
}

/// How the status of an intersection curve (whether the region it bounds
/// belongs to the AND or the OR part) carries over to the two faces it lies
/// on, given the orientation of each face. The result tells, for the face of
/// the first shell and for that of the second, whether the status is
/// inverted: it is for the first face exactly when the second face is
/// reversed, and for the second face exactly when the first face is forward.
pub fn status_inversions(forward0: bool, forward1: bool) -> (r: (bool, bool))
    ensures
        r.0 == !forward1,
        r.1 == forward0,
{
    match (forward0, forward1) {
        (true, true) => (false, true),
        (true, false) => (true, true),
        (false, true) => (false, false),
        (false, false) => (true, false),
    }
}

} // verus!
