use hashbrown::HashMap;
use slotmap::{DefaultKey, SlotMap};
use vstd::prelude::*;

verus! {

#[verifier::external_type_specification]
#[verifier::external_body]
pub struct ExDefaultKey(DefaultKey);

/// A slot map from keys to item ids. The map itself is hidden from the
/// verifier; `slot_ids` names what it holds.
#[verifier::external_body]
#[derive(Debug)]
pub struct IdSlots {
    inner: SlotMap<DefaultKey, u32>,
}

/// The entries of a slot map whose values are item ids: key to id.
pub uninterp spec fn slot_ids(m: IdSlots) -> Map<DefaultKey, u32>;

/// `SlotMap::new`: an empty slot map.
#[verifier::external_body]
pub(crate) fn slots_new() -> (fresh: IdSlots)
    ensures
        slot_ids(fresh).dom() == Set::<DefaultKey>::empty(),
{
    IdSlots { inner: SlotMap::new() }
}

/// `SlotMap::insert`: stores `value` under a key that was not in use, and
/// returns that key. It panics only when the map is full; with no entry
/// ever removed (none is, here) that is at `u32::MAX - 1` entries.
#[verifier::external_body]
pub(crate) fn slots_insert(m: &mut IdSlots, value: u32) -> (k: DefaultKey)
    requires
        slot_ids(*old(m)).len() < u32::MAX - 1,
    ensures
        !slot_ids(*old(m)).contains_key(k),
        slot_ids(*final(m)) == slot_ids(*old(m)).insert(k, value),
{
    m.inner.insert(value)
}

/// `SlotMap::len`: the number of entries.
#[verifier::external_body]
pub(crate) fn slots_len(m: &IdSlots) -> (r: usize)
    ensures
        r == slot_ids(*m).len(),
{
    m.inner.len()
}

/// `SlotMap::get`: the value stored under `k`, if any.
#[verifier::external_body]
pub(crate) fn slots_get(m: &IdSlots, k: DefaultKey) -> (r: Option<u32>)
    ensures
        r == (if slot_ids(*m).contains_key(k) { Some(slot_ids(*m)[k]) } else { None }),
{
    m.inner.get(k).copied()
}

/// `SlotMap::iter`: every entry once.
#[verifier::external_body]
pub(crate) fn slots_entries(m: &IdSlots) -> (r: Vec<(DefaultKey, u32)>)
    ensures
        r@.len() == slot_ids(*m).len(),
        forall|i: int|
            0 <= i < r@.len() ==> slot_ids(*m).contains_key(#[trigger] r@[i].0) && slot_ids(*m)[r@[i].0] == r@[i].1,
        forall|k: DefaultKey|
            #[trigger] slot_ids(*m).contains_key(k) ==> exists|i: int| 0 <= i < r@.len() && #[trigger] r@[i].0 == k,
        forall|i: int, j: int| 0 <= i < j < r@.len() ==> r@[i].0 != r@[j].0,
{
    m.inner.iter().map(|(k, v)| (k, *v)).collect()
}

/// A hash map from scene ids to positions in a list of scenes. The map
/// itself is hidden from the verifier; `scene_positions` names what it holds.
#[verifier::external_body]
#[derive(Debug)]
pub struct SceneIndex {
    inner: HashMap<usize, usize>,
}

/// The entries of a scene index: scene id to position.
pub uninterp spec fn scene_positions(m: SceneIndex) -> Map<usize, usize>;

/// `HashMap::new`: an empty map.
#[verifier::external_body]
pub(crate) fn scenes_new() -> (fresh: SceneIndex)
    ensures
        scene_positions(fresh).dom() == Set::<usize>::empty(),
{
    SceneIndex { inner: HashMap::new() }
}

/// `HashMap::insert`: stores `pos` under `id`, replacing what was there,
/// and returns the replaced position.
#[verifier::external_body]
pub(crate) fn scenes_insert(m: &mut SceneIndex, id: usize, pos: usize) -> (prev: Option<usize>)
    ensures
        scene_positions(*final(m)) == scene_positions(*old(m)).insert(id, pos),
        prev == (if scene_positions(*old(m)).contains_key(id) { Some(scene_positions(*old(m))[id]) } else { None }),
{
    m.inner.insert(id, pos)
}

/// `HashMap::get`: the position stored under `id`, if any.
#[verifier::external_body]
pub(crate) fn scenes_get(m: &SceneIndex, id: usize) -> (r: Option<usize>)
    ensures
        r == (if scene_positions(*m).contains_key(id) { Some(scene_positions(*m)[id]) } else { None }),
{
    m.inner.get(&id).copied()
}

/// `HashMap::keys`: every id once, in an order that depends on the hasher.
#[verifier::external_body]
pub(crate) fn scenes_keys(m: &SceneIndex) -> (r: Vec<usize>)
    ensures
        r@.len() == scene_positions(*m).len(),
        forall|i: int| 0 <= i < r@.len() ==> scene_positions(*m).contains_key(#[trigger] r@[i]),
        forall|id: usize| #[trigger] scene_positions(*m).contains_key(id) ==> r@.contains(id),
        forall|i: int, j: int| 0 <= i < j < r@.len() ==> r@[i] != r@[j],
{
    m.inner.keys().copied().collect()
}

} // verus!
