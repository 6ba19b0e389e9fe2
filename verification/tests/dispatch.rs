use truck_shapeops::dispatch::{choose_ssi_method, status_inversions, SsiMethod};

#[test]
fn method_for_two_planes_is_analytic() {
    assert_eq!(choose_ssi_method(true, true), SsiMethod::PlanePlane);
}

#[test]
fn method_for_plane_and_curved() {
    assert_eq!(choose_ssi_method(true, false), SsiMethod::PlaneCurved);
    assert_eq!(choose_ssi_method(false, true), SsiMethod::CurvedPlane);
}

#[test]
fn method_for_two_curved_surfaces_is_general() {
    assert_eq!(choose_ssi_method(false, false), SsiMethod::General);
}

#[test]
fn status_inversion_table() {
    assert_eq!(status_inversions(true, true), (false, true));
    assert_eq!(status_inversions(true, false), (true, true));
    assert_eq!(status_inversions(false, true), (false, false));
    assert_eq!(status_inversions(false, false), (true, false));
}

#[test]
fn status_inversion_follows_the_other_face() {
    for f0 in [true, false] {
        for f1 in [true, false] {
            let (n0, n1) = status_inversions(f0, f1);
            assert_eq!(n0, !f1);
            assert_eq!(n1, f0);
        }
    }
}
