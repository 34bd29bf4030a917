use vstd::prelude::*;

verus! {

/// Index of a coordinate axis: 0 for x, 1 for y, 2 for z.
pub open spec fn is_axis_index(i: usize) -> bool {
    i < 3
}

/// The three indices are the three axes, each once.
pub open spec fn is_axis_triple(t: (usize, usize, usize)) -> bool {
    &&& is_axis_index(t.0)
    &&& is_axis_index(t.1)
    &&& is_axis_index(t.2)
    &&& t.0 != t.1
    &&& t.1 != t.2
    &&& t.0 != t.2
}

/// The axis a rotation turns about.
#[derive(Clone, Copy, Debug, PartialEq, Eq, Structural)]
pub enum Axis {
    X,
    Y,
    Z,
}

impl Axis {
    /// The coordinate index of the axis itself.
    pub open spec fn index(self) -> usize {
        match self {
            Axis::X => 0,
            Axis::Y => 1,
            Axis::Z => 2,
        }
    }

    /// `(r, a, b)`: the rotation axis followed by the two axes of the plane it
    /// turns, in cyclic order, so that `a` rotates towards `b`.
    pub open spec fn spec_axes(self) -> (usize, usize, usize) {
        (self.index(), ((self.index() + 1) % 3) as usize, ((self.index() + 2) % 3) as usize)
    }

    /// The rotation axis and the two axes of the plane it turns.
    pub fn get_axises(&self) -> (r: (usize, usize, usize))
        ensures
            r == self.spec_axes(),
            is_axis_triple(r),
            r.0 == self.index(),
    {
        match *self {
            Axis::X => (0, 1, 2),
            Axis::Y => (1, 2, 0),
            Axis::Z => (2, 0, 1),
        }
    }
}

/// The coordinate plane an axis-aligned rectangle lies in.
#[derive(Clone, Copy, Debug, PartialEq, Eq, Structural)]
pub enum Plane {
    XY,
    YZ,
    ZX,
}

impl Plane {
    /// The axis the rectangle is fixed on (its normal direction).
    pub open spec fn fixed_index(self) -> usize {
        match self {
            Plane::XY => 2,
            Plane::YZ => 0,
            Plane::ZX => 1,
        }
    }

    /// `(k, a, b)`: the fixed axis, then the two axes that bound the rectangle,
    /// in the order the plane's name gives them.
    pub open spec fn spec_axes(self) -> (usize, usize, usize) {
        (
            self.fixed_index(),
            ((self.fixed_index() + 1) % 3) as usize,
            ((self.fixed_index() + 2) % 3) as usize,
        )
    }

    /// The fixed axis and the two axes that bound the rectangle.
    pub fn axes(&self) -> (r: (usize, usize, usize))
        ensures
            r == self.spec_axes(),
            is_axis_triple(r),
            r.0 == self.fixed_index(),
    {
        match *self {
            Plane::XY => (2, 0, 1),
            Plane::YZ => (0, 1, 2),
            Plane::ZX => (1, 2, 0),
        }
    }
}

/// A face of an axis-aligned box: the plane it lies in, and whether it sits
/// at the box's largest or smallest coordinate on that plane's fixed axis.
#[derive(Clone, Copy, Debug, PartialEq, Eq, Structural)]
pub struct BoxFace {
    pub plane: Plane,
    pub at_max: bool,
}

/// The faces of a box in the order they are built: front and back, top and
/// bottom, right and left.
pub open spec fn face_order() -> Seq<BoxFace> {
    seq![
        BoxFace { plane: Plane::XY, at_max: true },
        BoxFace { plane: Plane::XY, at_max: false },
        BoxFace { plane: Plane::ZX, at_max: true },
        BoxFace { plane: Plane::ZX, at_max: false },
        BoxFace { plane: Plane::YZ, at_max: true },
        BoxFace { plane: Plane::YZ, at_max: false },
    ]
}

/// The six faces of a box, each plane at each side exactly once.
pub fn box_faces() -> (r: Vec<BoxFace>)
    ensures
        r@ == face_order(),
        r@.len() == 6,
        forall|f: BoxFace| #[trigger] r@.contains(f),
        forall|i: int, j: int| 0 <= i < j < r@.len() ==> r@[i] != r@[j],
{
    let mut r: Vec<BoxFace> = Vec::new();
    r.push(BoxFace { plane: Plane::XY, at_max: true });
    r.push(BoxFace { plane: Plane::XY, at_max: false });
    r.push(BoxFace { plane: Plane::ZX, at_max: true });
    r.push(BoxFace { plane: Plane::ZX, at_max: false });
    r.push(BoxFace { plane: Plane::YZ, at_max: true });
    r.push(BoxFace { plane: Plane::YZ, at_max: false });
    proof {
        assert(r@ =~= face_order());
        assert forall|f: BoxFace| #[trigger] r@.contains(f) by {
            let i: int = match f.plane {
                Plane::XY => 0int,
                Plane::ZX => 2int,
                Plane::YZ => 4int,
            } + if f.at_max {
                0int
            } else {
                1int
            };
            assert(r@[i] == f);
        }
    }
    r
}

} // verus!
