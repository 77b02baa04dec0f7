use vstd::prelude::*;
use crate::Dirtyable;
use crate::random_id;

verus! {

/// A mesh of a model: its id (the key of its GPU-side info) and the
/// geometry, material and transform data `G` that only the renderer reads.
#[derive(Debug)]
pub struct Mesh<G> {
    pub dirty: bool,
    pub id: u32,
    pub data: G,
}

impl<G> Mesh<G> {
    /// The same mesh, up to date.
    pub open spec fn cleaned(self) -> Self {
        Mesh { dirty: false, ..self }
    }

    /// A new mesh with a random id, due for an upload.
    pub fn from(data: G) -> (r: Self)
        ensures
            r.id < 0x8000_0000,
            r.is_dirty(),
            r.data == data,
    {
        Mesh { id: random_id(), dirty: true, data }
    }
}

impl<G> Dirtyable for Mesh<G> {
    open spec fn is_dirty(&self) -> bool {
        self.dirty
    }

    fn dirty(&self) -> (r: bool) {
        self.dirty
    }

    fn set_dirty(&mut self, dirty: bool)
        ensures
            *final(self) == (Mesh { dirty, ..*old(self) }),
    {
        self.dirty = dirty
    }
}

} // verus!
