use vstd::prelude::*;

verus! {

/// A single-cell occupancy tag: air, or a solid kind identified by a nonzero id.
#[derive(Clone, Copy, PartialEq, Eq, Structural, Debug)]
pub struct Voxel {
    id: u8,
}

impl Voxel {
    /// The tag carried by this voxel (`0` is air, anything else a solid kind).
    pub closed spec fn id_spec(self) -> u8 {
        self.id
    }

    pub open spec fn is_air(self) -> bool {
        self.id_spec() == 0
    }

    pub open spec fn is_solid(self) -> bool {
        self.id_spec() != 0
    }

    /// The empty cell value.
    pub closed spec fn air_spec() -> Voxel {
        Voxel { id: 0 }
    }

    /// The one solid kind the generator places.
    pub closed spec fn ground_spec() -> Voxel {
        Voxel { id: 1 }
    }

    pub fn air() -> (v: Voxel)
        ensures
            v == Voxel::air_spec(),
            v.is_air(),
    {
        Voxel { id: 0 }
    }

    pub fn ground() -> (v: Voxel)
        ensures
            v == Voxel::ground_spec(),
            v.is_solid(),
            v.id_spec() == 1,
    {
        Voxel { id: 1 }
    }

    pub fn id(&self) -> (r: u8)
        ensures
            r == self.id_spec(),
    {
        self.id
    }
}

} // verus!
