//! The bounce rule of the path tracer.
//!
//! The radiance along a ray is black once the depth is used up; else it is
//! the background where the ray leaves the scene, the emission of the surface
//! where the ray is absorbed, and the emission plus the attenuated radiance of
//! the scattered ray, traced one level deeper, where it scatters. The colours
//! and the intersection are the caller's; the rule that picks the formula and
//! counts the depth down is here.

use vstd::prelude::*;

verus! {

/// What became of a ray that was traced into the scene.
#[derive(Clone, Copy, Debug, PartialEq, Eq, Structural)]
pub enum Interaction {
    /// The ray met no object.
    Miss,
    /// The ray met a surface that scattered nothing.
    Absorbed,
    /// The ray met a surface that scattered it.
    Scattered,
}

/// The formula that gives the radiance along a ray.
#[derive(Clone, Copy, Debug, PartialEq, Eq, Structural)]
pub enum Radiance {
    /// Zero radiance.
    Black,
    /// The background colour.
    Background,
    /// The emission of the surface.
    Emitted,
    /// The emission of the surface plus the attenuation times the radiance
    /// along the scattered ray, which is traced along the given path.
    Bounced(Path),
}

/// How deep a path may still go.
#[derive(Clone, Copy, Debug, PartialEq, Eq, Structural)]
pub struct Path {
    pub depth: i32,
}

impl Path {
    /// Number of rays that may still be traced along the path.
    pub open spec fn budget(self) -> nat {
        if self.depth <= 0 {
            0
        } else {
            self.depth as nat
        }
    }

    /// The radiance along a ray of this path that met `interaction`.
    pub open spec fn shade(self, interaction: Interaction) -> Radiance {
        if self.depth <= 0 {
            Radiance::Black
        } else {
            match interaction {
                Interaction::Miss => Radiance::Background,
                Interaction::Absorbed => Radiance::Emitted,
                Interaction::Scattered => Radiance::Bounced(Path { depth: (self.depth - 1) as i32 }),
            }
        }
    }

    /// Number of rays traced along a path on which the rays meet the given
    /// interactions one after the other.
    pub open spec fn rays_traced(self, met: Seq<Interaction>) -> nat
        decreases met.len(),
    {
        if self.depth <= 0 || met.len() == 0 {
            0
        } else {
            match self.shade(met[0]) {
                Radiance::Bounced(next) => 1 + next.rays_traced(met.drop_first()),
                _ => 1,
            }
        }
    }

    /// A path that may go `depth` levels deep.
    pub fn new(depth: i32) -> (path: Path)
        ensures
            path.depth == depth,
    {
        Path { depth }
    }

    /// The depth is used up: the radiance is black and the scene is not asked.
    pub fn exhausted(&self) -> (r: bool)
        ensures
            r == (self.depth <= 0),
            r == (self.budget() == 0),
            r ==> forall|interaction: Interaction| self.shade(interaction) == Radiance::Black,
    {
        self.depth <= 0
    }

    /// Picks the formula for a ray that met `interaction`.
    pub fn ray_color(&self, interaction: Interaction) -> (r: Radiance)
        ensures
            r == self.shade(interaction),
            self.depth <= 0 ==> r == Radiance::Black,
            r matches Radiance::Bounced(next) ==> next.budget() + 1 == self.budget(),
    {
        if self.depth <= 0 {
            return Radiance::Black;
        }
        match interaction {
            Interaction::Miss => Radiance::Background,
            Interaction::Absorbed => Radiance::Emitted,
            Interaction::Scattered => Radiance::Bounced(Path { depth: self.depth - 1 }),
        }
    }
}

/// Depth cap. Whatever the rays meet, a path traces no more rays than its
/// depth; with depth zero it traces none.
pub proof fn lemma_depth_cap(path: Path, met: Seq<Interaction>)
    ensures
        path.rays_traced(met) <= path.budget(),
        path.depth <= 0 ==> path.rays_traced(met) == 0,
    decreases met.len(),
{
    if path.depth > 0 && met.len() > 0 {
        match path.shade(met[0]) {
            Radiance::Bounced(next) => {
                lemma_depth_cap(next, met.drop_first());
            },
            _ => {},
        }
    }
}

} // verus!
