//! Core logic of a small real-time rendering engine: the scene graph and
//! the world of scenes, the bookkeeping of the GPU buffers that mirror them
//! (what to upload where), texture and material management, glTF import
//! decisions, resource URIs, input state and the outline animation.
//! Drawing, windowing, file access and floating-point geometry are left to
//! the embedding program, which carries out the uploads the library plans.

pub mod animation;
pub mod buffers;
pub mod camera;
pub mod events;
pub mod images;
pub mod import;
pub mod input;
pub mod layout;
pub mod material;
pub mod saved;
pub mod scene;
pub mod slots;
pub mod text;
pub mod texture;
pub mod uri;
pub mod world;

use vstd::prelude::*;

verus! {

/// Objects that cache GPU-side copies of themselves and must be re-uploaded
/// after a change.
pub trait Dirtyable {
    spec fn is_dirty(&self) -> bool;

    /// Whether the object was modified and is due for an update.
    fn dirty(&self) -> (r: bool)
        ensures
            r == self.is_dirty(),
    ;

    /// Sets whether the object is due for an update.
    fn set_dirty(&mut self, dirty: bool)
        ensures
            final(self).is_dirty() == dirty,
    ;
}

/// `rand::thread_rng().gen_range(0..1 << 31)`: a randomly drawn id below 2^31.
#[verifier::external_body]
pub(crate) fn random_id() -> (r: u32)
    ensures
        r < 0x8000_0000,
{
    rand::Rng::gen_range(&mut rand::thread_rng(), 0u32..0x8000_0000u32)
}

} // verus!
