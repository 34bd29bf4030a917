use hyper_ray_tracer::axis::{box_faces, Axis, BoxFace, Plane};

#[test]
fn rotation_axes_are_cyclic() {
    assert_eq!(Axis::X.get_axises(), (0, 1, 2));
    assert_eq!(Axis::Y.get_axises(), (1, 2, 0));
    assert_eq!(Axis::Z.get_axises(), (2, 0, 1));
}

#[test]
fn rectangle_planes_fix_their_normal_axis() {
    assert_eq!(Plane::XY.axes(), (2, 0, 1));
    assert_eq!(Plane::YZ.axes(), (0, 1, 2));
    assert_eq!(Plane::ZX.axes(), (1, 2, 0));
}

#[test]
fn box_has_each_face_once() {
    let faces = box_faces();
    assert_eq!(faces.len(), 6);
    for plane in [Plane::XY, Plane::YZ, Plane::ZX] {
        for at_max in [false, true] {
            let f = BoxFace { plane, at_max };
            assert_eq!(faces.iter().filter(|g| **g == f).count(), 1);
        }
    }
    assert_eq!(faces[0], BoxFace { plane: Plane::XY, at_max: true });
    assert_eq!(faces[3], BoxFace { plane: Plane::ZX, at_max: false });
    assert_eq!(faces[5], BoxFace { plane: Plane::YZ, at_max: false });
}
