use vstd::prelude::*;
use crate::Dirtyable;

verus! {

/// A point light attached to a model: its slot in the scene's light buffer
/// and the colour, intensity, range and transform data `L`.
#[derive(Debug)]
pub struct PointLight<L> {
    pub dirty: bool,
    pub index: usize,
    pub data: L,
}

impl<L> PointLight<L> {
    /// A new light in slot `index`, due for an upload.
    pub fn new(index: usize, data: L) -> (r: Self)
        ensures
            r == (PointLight { dirty: true, index, data }),
    {
        PointLight { dirty: true, index, data }
    }
}

impl<L> Dirtyable for PointLight<L> {
    open spec fn is_dirty(&self) -> bool {
        self.dirty
    }

    fn dirty(&self) -> (r: bool) {
        self.dirty
    }

    fn set_dirty(&mut self, dirty: bool)
        ensures
            *final(self) == (PointLight { dirty, ..*old(self) }),
    {
        self.dirty = dirty;
    }
}

} // verus!
