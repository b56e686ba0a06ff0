use hutspot::geom::IntersectionType;
use hutspot::geom::Orientation;

#[test]
fn orientations_are_distinct() {
    assert_eq!(Orientation::C, Orientation::C);
    assert_ne!(Orientation::CW, Orientation::CCW);
    assert_ne!(Orientation::C, Orientation::CW);
}

#[test]
fn intersection_kinds_are_distinct() {
    assert_eq!(IntersectionType::Proper, IntersectionType::Proper);
    assert_ne!(IntersectionType::Proper, IntersectionType::Endpoint);
}

#[test]
fn classifications_copy() {
    let o = Orientation::CCW;
    let p = o;
    assert_eq!(o, p);
    let k = IntersectionType::Endpoint;
    let l = k;
    assert_eq!(k, l);
}
