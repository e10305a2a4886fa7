//! What to do with the two storage buffers before a frame is drawn.
//!
//! The renderer keeps one buffer for the particle data and one for the
//! colours, and records the size that each was made with. Before a frame
//! it either writes the new data into a buffer or makes the buffer anew.
//! Which of the two it does is decided here; the renderer carries it out.

use vstd::prelude::*;

verus! {

/// The decision for both buffers, and the sizes to record after it.
#[derive(Clone, Copy, Debug, PartialEq, Eq, Structural)]
pub struct UploadPlan {
    /// The particles' buffer is made anew from the particle data.
    pub recreate_particles: bool,
    /// The colours' buffer is made anew from the colour data.
    pub recreate_colors: bool,
    /// The size to record for the particles' buffer.
    pub particles_capacity: usize,
    /// The size to record for the colours' buffer.
    pub colors_capacity: usize,
}

impl UploadPlan {
    /// The bind group refers to both buffers, so it is rebuilt exactly if
    /// one of them is made anew.
    pub open spec fn rebinds(self) -> bool {
        self.recreate_particles || self.recreate_colors
    }

    /// Whether the bind group has to be rebuilt.
    pub fn rebuild_bind_group(&self) -> (b: bool)
        ensures
            b == self.rebinds(),
    {
        self.recreate_particles || self.recreate_colors
    }
}

/// Plans the upload of `particles_len` bytes of particle data and
/// `colors_len` bytes of colours into buffers recorded with the given
/// sizes.
///
/// A buffer that is kept is written in place and keeps its recorded size;
/// one that is made anew is recorded with the length of its own data. Both
/// buffers are measured against the particle data: the colours' buffer is
/// made anew when the particle data has outgrown its recorded size.
pub fn plan_upload(
    particles_capacity: usize,
    colors_capacity: usize,
    particles_len: usize,
    colors_len: usize,
) -> (p: UploadPlan)
    ensures
        p.recreate_particles <==> particles_capacity < particles_len,
        p.particles_capacity == (if particles_capacity >= particles_len {
            particles_capacity
        } else {
            particles_len
        }),
        p.recreate_colors <==> colors_capacity < particles_len,
        p.colors_capacity == (if colors_capacity >= particles_len {
            colors_capacity
        } else {
            colors_len
        }),
{
    let recreate_particles = particles_capacity < particles_len;
    let recreate_colors = colors_capacity < particles_len;
    UploadPlan {
        recreate_particles,
        recreate_colors,
        particles_capacity: if recreate_particles {
            particles_len
        } else {
            particles_capacity
        },
        colors_capacity: if recreate_colors {
            colors_len
        } else {
            colors_capacity
        },
    }
}

} // verus!
