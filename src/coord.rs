use vstd::prelude::*;

verus! {

/// An integer point: a chunk coordinate, or a position relative to some origin.
#[derive(Clone, Copy, Debug, PartialEq, Eq, Hash, Structural)]
pub struct IVec3 {
    pub x: i32,
    pub y: i32,
    pub z: i32,
}

impl View for IVec3 {
    type V = (int, int, int);

    open spec fn view(&self) -> (int, int, int) {
        (self.x as int, self.y as int, self.z as int)
    }
}

/// The componentwise difference `p - q`, computed without overflow.
pub open spec fn offset(p: (int, int, int), q: (int, int, int)) -> (int, int, int) {
    (p.0 - q.0, p.1 - q.1, p.2 - q.2)
}

impl IVec3 {
    pub fn new(x: i32, y: i32, z: i32) -> (r: IVec3)
        ensures
            r@ == (x as int, y as int, z as int),
    {
        IVec3 { x, y, z }
    }

    pub fn zero() -> (r: IVec3)
        ensures
            r@ == (0int, 0int, 0int),
    {
        IVec3 { x: 0, y: 0, z: 0 }
    }
}

} // verus!
