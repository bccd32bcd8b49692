//! Voxel materials.
//!
//! A material is a small enumerated value; `Air` is the empty sentinel.
//! Meshing runs in two phases: phase 1 draws opaque materials, phase 2
//! transparent ones, so transparency composites correctly.

use vstd::prelude::*;

verus! {

/// The contents of one voxel. `Air` is the empty sentinel.
#[derive(Clone, Copy, PartialEq, Eq, Structural, Debug)]
pub enum Material {
    Air,
    Stone,
    Dirt,
    Grass,
    Sand,
    Water,
    Glass,
}

impl Material {
    /// Whether the material is drawn in the transparent pass.
    pub open spec fn is_transparent(self) -> bool {
        self == Material::Water || self == Material::Glass
    }

    /// Whether the material occupies space in the given pass: it is not air,
    /// and its transparency matches the pass. A face is culled only against
    /// same-phase occupancy, so an opaque block behind a transparent one
    /// still emits a face.
    pub open spec fn in_phase(self, phase2: bool) -> bool {
        self != Material::Air && self.is_transparent() == phase2
    }

    /// Executable form of `is_transparent`.
    pub fn transparent(&self) -> (r: bool)
        ensures
            r == self.is_transparent(),
    {
        *self == Material::Water || *self == Material::Glass
    }

    /// Executable form of `in_phase`.
    pub fn occupies(&self, phase2: bool) -> (r: bool)
        ensures
            r == self.in_phase(phase2),
    {
        *self != Material::Air && self.transparent() == phase2
    }
}

} // verus!
