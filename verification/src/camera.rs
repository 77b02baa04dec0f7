use vstd::prelude::*;

verus! {

/// The part of a camera that decides when its uniform buffer must be
/// rewritten: the number of lights handed to the shaders and whether
/// anything changed since the last upload.
#[derive(Debug)]
pub struct CameraSync {
    dirty: bool,
    light_count: u32,
}

impl CameraSync {
    pub closed spec fn is_dirty(&self) -> bool {
        self.dirty
    }

    pub closed spec fn lights(&self) -> u32 {
        self.light_count
    }

    /// A freshly set up camera: no lights, nothing to upload.
    pub fn new() -> (r: Self)
        ensures
            r.lights() == 0,
            !r.is_dirty(),
    {
        CameraSync { dirty: false, light_count: 0 }
    }

    /// Call this whenever the number of lights in the scene changes; the value
    /// is passed to the fragment shader. An unchanged count changes nothing.
    pub fn update_light_count(&mut self, num_lights: u32)
        ensures
            final(self).lights() == num_lights,
            final(self).is_dirty() == (old(self).is_dirty() || old(self).lights() != num_lights),
    {
        if self.light_count == num_lights {
            return;
        }
        self.light_count = num_lights;
        self.dirty = true;
    }

    pub fn light_count(&self) -> (r: u32)
        ensures
            r == self.lights(),
    {
        self.light_count
    }

    /// Whether the uniform is due for a rewrite.
    pub fn dirty(&self) -> (r: bool)
        ensures
            r == self.is_dirty(),
    {
        self.dirty
    }

    /// Something the uniform depends on (position, aspect ratio, ...) changed.
    pub fn mark_dirty(&mut self)
        ensures
            final(self).lights() == old(self).lights(),
            final(self).is_dirty(),
    {
        self.dirty = true;
    }

    /// Whether the uniform must be rewritten now; afterwards it counts as
    /// up to date.
    pub fn take_dirty(&mut self) -> (r: bool)
        ensures
            r == old(self).is_dirty(),
            final(self).lights() == old(self).lights(),
            !final(self).is_dirty(),
    {
        let r = self.dirty;
        self.dirty = false;
        r
    }
}

} // verus!
