use crate::import::MeshData;
use crate::material::MaterialManager;
use crate::saved::{
    forest_shaded, forest_shaded_by, forest_recorded, forest_same_content, lemma_forest_round_trip, scene_from_serde, scene_read,
    scene_readable, SceneSerde,
};
use crate::scene::mesh::Mesh;
use crate::camera::CameraSync;
use crate::scene::light::PointLight;
use crate::scene::model::{deep_order, derefs, duplicate_of, first_deep, first_with_id, forest_contains, functional, Model};
use crate::scene::{
    addable, joinable, joined, lemma_lights_in_range_concat, lemma_removal_keeps_lights_in_range, model_added,
    lemma_clean_lights_ask_nothing, lemma_clean_meshes_ask_nothing, lemma_top_meshes_refreshed, lemma_same_root_lights, light_update_ops, lights_in_range, mesh_update_ops, refreshed, removal,
    roots_after_removal, same_root_lights, top_meshes, BufferWrite, Scene,
};
use crate::buffers::can_push_each;
use crate::slots::{scene_positions, scenes_get, scenes_insert, scenes_keys, scenes_new, SceneIndex};
use crate::text::{chars_of, same_chars};
use crate::material::Material;
use crate::texture::TextureManager;
use slotmap::DefaultKey;
use vstd::prelude::*;

verus! {

/// The rewrites one scene asks for.
#[derive(Debug)]
pub struct SceneWrites {
    pub scene_id: usize,
    pub writes: Vec<BufferWrite>,
}

/// Everything the renderer draws from: the scenes by id, which of them is
/// shown, and the materials and textures the scenes refer to.
#[derive(Debug)]
pub struct World<G, L, T, F, D> {
    scenes: Vec<Scene<G, L, T>>,
    index: SceneIndex,
    pub active_scene: usize,
    pub materials: MaterialManager<F>,
    pub textures: TextureManager<D>,
}

/// The scene `s` under the id `id`.
pub open spec fn renumbered<G, L, T>(s: Scene<G, L, T>, id: u32) -> Scene<G, L, T> {
    Scene { id, ..s }
}

/// `new` is `old` after `update_meshes` and then `update_lights`, which
/// asked for the rewrites `ops`.
pub open spec fn scene_refreshed<G, L, T>(old: Scene<G, L, T>, new: Scene<G, L, T>, ops: Seq<BufferWrite>) -> bool {
    &&& new.id == old.id
    &&& new.name == old.name
    &&& new.mesh_buffer == old.mesh_buffer
    &&& new.light_buffer == old.light_buffer
    &&& new.models@.len() == old.models@.len()
    &&& forall|i: int|
        0 <= i < old.models@.len() ==> refreshed(old.models@[i], #[trigger] new.models@[i], old.models@[i].children@)
    &&& ops == mesh_update_ops(top_meshes(old.models@), old.mesh_buffer.index_map(), old.mesh_buffer.array().elem_size())
        + light_update_ops(old.models@, old.light_buffer.elem_size())
}

/// Uploads settle: after `update_active_scene` refreshed a scene, refreshing
/// it again asks for nothing.
pub proof fn lemma_scene_updates_settle<G, L, T>(old: Scene<G, L, T>, new: Scene<G, L, T>, ops: Seq<BufferWrite>)
    requires
        scene_refreshed(old, new, ops),
    ensures
        mesh_update_ops(top_meshes(new.models@), new.mesh_buffer.index_map(), new.mesh_buffer.array().elem_size())
            + light_update_ops(new.models@, new.light_buffer.elem_size()) == Seq::<BufferWrite>::empty(),
{
    lemma_top_meshes_refreshed(old.models@, new.models@);
    let cleaned = top_meshes(old.models@).map_values(|m: Mesh<G>| m.cleaned());
    lemma_clean_meshes_ask_nothing(cleaned, new.mesh_buffer.index_map(), new.mesh_buffer.array().elem_size());
    assert forall|i: int| 0 <= i < new.models@.len() implies ((#[trigger] new.models@[i]).light matches Some(l) ==> !l.dirty) by {
        assert(refreshed(old.models@[i], new.models@[i], old.models@[i].children@));
    }
    lemma_clean_lights_ask_nothing(new.models@, new.light_buffer.elem_size());
    assert(mesh_update_ops(top_meshes(new.models@), new.mesh_buffer.index_map(), new.mesh_buffer.array().elem_size())
        =~= Seq::<BufferWrite>::empty());
    assert(light_update_ops(new.models@, new.light_buffer.elem_size()) =~= Seq::<BufferWrite>::empty());
}

/// An added scene never replaces a stored one while ids fit in 32 bits:
/// the id `add_scene` picks is above every id in use, and the scene is
/// stored under that very id.
pub proof fn lemma_added_scene_is_new<G, L, T>(scenes: Map<usize, Scene<G, L, T>>, id: usize)
    requires
        forall|k: usize| #[trigger] scenes.contains_key(k) ==> k < id,
        id <= u32::MAX,
    ensures
        id as u32 as usize == id,
        !scenes.contains_key(id as u32 as usize),
{
}

/// Every scene can have the model with id `id` taken out of it.
pub open spec fn removable<G, L, T>(scenes: Map<usize, Scene<G, L, T>>, id: u32) -> bool {
    forall|sid: usize|
        #[trigger] scenes.contains_key(sid) ==> {
            &&& scenes[sid].wf()
            &&& lights_in_range(
                roots_after_removal(scenes[sid].models@, id),
                scenes[sid].light_buffer.count(),
                scenes[sid].light_buffer.elem_size(),
            )
        }
}

/// What `remove_model` reports for the `i`-th of `n` scenes it visited.
pub open spec fn found_at<G, L, T>(found: Option<(usize, Model<G, L, T>)>, i: int, n: int) -> Option<Model<G, L, T>> {
    match found {
        Some(f) => if i == n - 1 { Some(f.1) } else { None },
        None => None,
    }
}

/// Why a world operation changed nothing, or less than asked.
#[derive(Debug, Clone, Copy, PartialEq, Eq, Structural)]
pub enum WorldError {
    /// The scene asked for does not exist.
    NoScene,
    /// No scene holds the model asked for.
    NotFound,
    /// The models cannot go where they were asked to: the parent is not a
    /// root of the scene, or the scene's buffers or light slots cannot take
    /// them (see `addable` and `joinable`).
    CannotAttach,
}

/// Whether a file with the extension `ext` can be imported as a scene: glTF
/// files, binary or not.
pub fn importable(ext: &str) -> (r: bool)
    ensures
        r <==> (ext@ == "glb"@ || ext@ == "gltf"@),
{
    let e = chars_of(ext);
    same_chars(&e, &chars_of("glb")) || same_chars(&e, &chars_of("gltf"))
}

/// The scenes `new` are the scenes `old` after `World::remove_model(id)`
/// reported `found` and the rewrites `writes` of the scenes it visited.
#[verifier::opaque]
pub open spec fn removed_in_world<G, L, T>(
    old: Map<usize, Scene<G, L, T>>,
    new: Map<usize, Scene<G, L, T>>,
    id: u32,
    found: Option<(usize, Model<G, L, T>)>,
    writes: Seq<SceneWrites>,
) -> bool {
    &&& new.dom() == old.dom()
    &&& found is Some <==> exists|sid: usize|
        #[trigger] old.contains_key(sid) && forest_contains(old[sid].models@, id)
    &&& found matches Some(f) ==> writes.len() > 0 && writes.last().scene_id == f.0
    &&& forall|i: int, j: int| 0 <= i < j < writes.len() ==> writes[i].scene_id != writes[j].scene_id
    &&& forall|i: int|
        0 <= i < writes.len() ==> {
            &&& old.contains_key(#[trigger] writes[i].scene_id)
            &&& removal(
                old[writes[i].scene_id],
                new[writes[i].scene_id],
                id,
                found_at(found, i, writes.len() as int),
                writes[i].writes@,
            )
        }
    &&& forall|sid: usize|
        #[trigger] old.contains_key(sid) && (forall|i: int| 0 <= i < writes.len() ==> writes[i].scene_id != sid)
            ==> new[sid] == old[sid]
}

/// Every scene is well formed and has its dirty lights in range.
pub open spec fn settled<G, L, T>(scenes: Map<usize, Scene<G, L, T>>) -> bool {
    forall|sid: usize|
        #[trigger] scenes.contains_key(sid) ==> {
            &&& scenes[sid].wf()
            &&& lights_in_range(scenes[sid].models@, scenes[sid].light_buffer.count(), scenes[sid].light_buffer.elem_size())
        }
}

/// In settled scenes any model can be taken out.
pub proof fn lemma_settled_removable<G, L, T>(scenes: Map<usize, Scene<G, L, T>>, id: u32)
    requires
        settled(scenes),
    ensures
        removable(scenes, id),
{
    assert forall|sid: usize| #[trigger] scenes.contains_key(sid) implies {
        &&& scenes[sid].wf()
        &&& lights_in_range(
            roots_after_removal(scenes[sid].models@, id),
            scenes[sid].light_buffer.count(),
            scenes[sid].light_buffer.elem_size(),
        )
    } by {
        lemma_removal_keeps_lights_in_range(
            scenes[sid].models@,
            id,
            scenes[sid].light_buffer.count(),
            scenes[sid].light_buffer.elem_size(),
        );
    }
}

/// `m` is a new light model: no meshes, no name, no children, the
/// transform `transform`, and a dirty light in slot `slot` whose data
/// `place_light` gave for the `identity` parent, `transform` and `data`.
pub open spec fn light_model<G, L, T, FL>(
    m: Model<G, L, T>,
    slot: usize,
    data: L,
    transform: T,
    identity: T,
    place_light: FL,
) -> bool where FL: Fn(&T, &T, &L) -> L {
    &&& m.meshes@.len() == 0
    &&& m.name is None
    &&& m.children@.len() == 0
    &&& m.transform == transform
    &&& m.light matches Some(l) && l.dirty && l.index == slot && place_light.ensures((&identity, &transform, &data), l.data)
}

/// `new` is `old` after `duplicate_model(id)` visited it with the rewrites
/// `ops`: when `old` holds a model with id `id` and has room for a copy of
/// the first one in the deep walk, a duplicate of it was added as a root;
/// otherwise nothing changed.
pub open spec fn duplicated<G, L, T: Clone, FD>(
    old: Scene<G, L, T>,
    new: Scene<G, L, T>,
    id: u32,
    ops: Seq<BufferWrite>,
    copy_data: FD,
) -> bool where FD: Fn(&G) -> G {
    if (exists|k: int| first_with_id(deep_order(old.models@), id, k)) && old.wf() && can_push_each(
        old.mesh_buffer.array(),
        first_deep(old.models@, id).meshes@.len(),
    ) && lights_in_range(old.models@, old.light_buffer.count(), old.light_buffer.elem_size()) {
        exists|copy: Model<G, L, T>|
            duplicate_of(first_deep(old.models@, id), copy, copy_data) && #[trigger] model_added(old, copy, None, new, ops)
    } else {
        new == old && ops.len() == 0
    }
}

/// The scenes `new` are the scenes `old` after `change_model_parent` moved
/// the model with id `id` under `parent_id` in the scene `target`, ended
/// with `result` and reported the rewrites `writes`: the first `k` of them
/// are those of `remove_model`, which left the scenes `mid` and reported
/// `found`; then, when the model was found and can be added to the target,
/// the target's rewrites of `Scene::add_model` follow.
pub open spec fn parent_changed<G, L, T>(
    old: Map<usize, Scene<G, L, T>>,
    new: Map<usize, Scene<G, L, T>>,
    id: u32,
    parent_id: Option<u32>,
    target: usize,
    result: Result<(), WorldError>,
    writes: Seq<SceneWrites>,
) -> bool {
    exists|mid: Map<usize, Scene<G, L, T>>, found: Option<(usize, Model<G, L, T>)>, k: int|
        #![trigger removed_in_world(old, mid, id, found, writes.take(k))]
        {
            &&& 0 <= k <= writes.len()
            &&& removed_in_world(old, mid, id, found, writes.take(k))
            &&& match found {
                None => result == Err::<(), WorldError>(WorldError::NotFound) && k == writes.len() && new == mid,
                Some(f) => if addable(mid[target], f.1, parent_id) {
                    &&& result == Ok::<(), WorldError>(())
                    &&& k + 1 == writes.len()
                    &&& writes[k].scene_id == target
                    &&& model_added(mid[target], f.1, parent_id, new[target], writes[k].writes@)
                    &&& new == mid.insert(target, new[target])
                } else {
                    &&& result == Err::<(), WorldError>(WorldError::CannotAttach)
                    &&& k == writes.len()
                    &&& new == mid
                },
            }
        }
}

/// Duplicating searches the whole tree of a scene, not just its roots: when
/// the first model with id `id` in the deep walk of `old` is the `k`-th,
/// and `old` has room for a copy of it, `duplicate_model` leaves the scene
/// with one more root, a duplicate of that model (see `duplicate_of`),
/// and every earlier root with its uploads done.
pub proof fn lemma_duplicate_searches_deep<G, L, T: Clone, FD>(
    old: Scene<G, L, T>,
    new: Scene<G, L, T>,
    id: u32,
    ops: Seq<BufferWrite>,
    copy_data: FD,
    k: int,
)
    where FD: Fn(&G) -> G,
    requires
        duplicated(old, new, id, ops, copy_data),
        0 <= k < deep_order(old.models@).len(),
        deep_order(old.models@)[k].id == id,
        forall|j: int| 0 <= j < k ==> deep_order(old.models@)[j].id != id,
        old.wf(),
        can_push_each(old.mesh_buffer.array(), deep_order(old.models@)[k].meshes@.len()),
        lights_in_range(old.models@, old.light_buffer.count(), old.light_buffer.elem_size()),
    ensures
        new.models@.len() == old.models@.len() + 1,
        exists|copy: Model<G, L, T>|
            #[trigger] duplicate_of(deep_order(old.models@)[k], copy, copy_data) && refreshed(
                copy,
                new.models@[old.models@.len() as int],
                copy.children@,
            ),
        forall|i: int|
            0 <= i < old.models@.len() ==> refreshed(old.models@[i], #[trigger] new.models@[i], old.models@[i].children@),
{
    assert(first_with_id(deep_order(old.models@), id, k));
    let c = choose|c: int| first_with_id(deep_order(old.models@), id, c);
    assert(c == k);
    let copy = choose|copy: Model<G, L, T>|
        duplicate_of(first_deep(old.models@, id), copy, copy_data) && #[trigger] model_added(old, copy, None, new, ops);
    assert(duplicate_of(deep_order(old.models@)[k], copy, copy_data));
}

impl<G, L, T, F, D> World<G, L, T, F, D> {
    /// The index sends the scene ids one to one onto the positions of the
    /// stored scenes.
    pub closed spec fn wf(&self) -> bool {
        let pos = scene_positions(self.index);
        &&& pos.dom().finite()
        &&& forall|id: usize| #[trigger] pos.contains_key(id) ==> pos[id] < self.scenes@.len()
        &&& forall|a: usize, b: usize|
            #[trigger] pos.contains_key(a) && #[trigger] pos.contains_key(b) && pos[a] == pos[b] ==> a == b
        &&& forall|i: int| 0 <= i < self.scenes@.len() ==> #[trigger] has_position(pos, i)
    }

    /// Scene id to scene.
    pub closed spec fn scenes(&self) -> Map<usize, Scene<G, L, T>> {
        Map::new(
            |id: usize| scene_positions(self.index).contains_key(id),
            |id: usize| self.scenes@[scene_positions(self.index)[id] as int],
        )
    }

    pub closed spec fn active(&self) -> usize {
        self.active_scene
    }

    pub closed spec fn material_state(&self) -> MaterialManager<F> {
        self.materials
    }

    pub closed spec fn texture_state(&self) -> TextureManager<D> {
        self.textures
    }

    /// There are finitely many scenes.
    pub proof fn lemma_wf(&self)
        requires
            self.wf(),
        ensures
            self.scenes().dom().finite(),
    {
        assert(self.scenes().dom() =~= scene_positions(self.index).dom());
    }

    /// A world without scenes, showing scene 0.
    pub fn new(materials: MaterialManager<F>, textures: TextureManager<D>) -> (r: Self)
        ensures
            r.wf(),
            r.scenes().dom() == Set::<usize>::empty(),
            r.active() == 0,
            r.material_state() == materials,
            r.texture_state() == textures,
    {
        let r = World { scenes: Vec::new(), index: scenes_new(), active_scene: 0, materials, textures };
        proof {
            assert(r.scenes().dom() =~= Set::<usize>::empty());
        }
        r
    }

    /// The ids of all scenes, each once, in the order of the scene index.
    pub fn scene_ids(&self) -> (r: Vec<usize>)
        requires
            self.wf(),
        ensures
            forall|i: int| 0 <= i < r@.len() ==> self.scenes().contains_key(#[trigger] r@[i]),
            forall|id: usize| #[trigger] self.scenes().contains_key(id) ==> r@.contains(id),
            forall|i: int, j: int| 0 <= i < j < r@.len() ==> r@[i] != r@[j],
    {
        proof {
            assert(self.scenes().dom() =~= scene_positions(self.index).dom());
        }
        scenes_keys(&self.index)
    }

    /// The scene with id `id`, if there is one.
    pub fn get_scene(&self, id: usize) -> (r: Option<&Scene<G, L, T>>)
        requires
            self.wf(),
        ensures
            r is Some <==> self.scenes().contains_key(id),
            r matches Some(s) ==> *s == self.scenes()[id],
    {
        match scenes_get(&self.index, id) {
            Some(pos) => Some(&self.scenes[pos]),
            None => None,
        }
    }

    /// The scene with id `id`, to be changed in place, if there is one.
    pub fn scene_mut(&mut self, id: usize) -> (r: Option<&mut Scene<G, L, T>>)
        requires
            old(self).wf(),
        ensures
            r is Some <==> old(self).scenes().contains_key(id),
            r matches Some(s) ==> *s == old(self).scenes()[id],
            r matches Some(s) ==> final(self).scenes() == old(self).scenes().insert(id, *final(s)),
            r is None ==> final(self).scenes() == old(self).scenes(),
            final(self).wf(),
            final(self).active() == old(self).active(),
            final(self).material_state() == old(self).material_state(),
            final(self).texture_state() == old(self).texture_state(),
    {
        let ghost old_scenes = self.scenes@;
        let ghost pos_map = scene_positions(self.index);
        match scenes_get(&self.index, id) {
            Some(pos) => {
                let s = &mut self.scenes[pos];
                proof {
                    lemma_view_update(old_scenes, pos_map, id, *final(s));
                }
                Some(s)
            },
            None => None,
        }
    }

    /// The scene shown, if it exists.
    pub fn get_active_scene(&self) -> (r: Option<&Scene<G, L, T>>)
        requires
            self.wf(),
        ensures
            r is Some <==> self.scenes().contains_key(self.active()),
            r matches Some(s) ==> *s == self.scenes()[self.active()],
    {
        self.get_scene(self.active_scene)
    }

    /// The meshes of the root models of the scene shown, drawn with the PBR
    /// pipeline (all materials are PBR ones).
    pub fn pbr_meshes(&self) -> (r: Option<Vec<&Mesh<G>>>)
        requires
            self.wf(),
        ensures
            r is Some <==> self.scenes().contains_key(self.active()),
            r matches Some(v) ==> derefs(v@) == top_meshes(self.scenes()[self.active()].models@),
    {
        match self.get_active_scene() {
            Some(scene) => Some(scene.iter_meshes()),
            None => None,
        }
    }

    /// Rewrites the dirty root meshes and then the dirty lights of the scene
    /// shown; nothing happens when it does not exist.
    pub fn update_active_scene(&mut self) -> (ops: Vec<BufferWrite>)
        requires
            old(self).wf(),
            old(self).scenes().contains_key(old(self).active()) ==> {
                let s = old(self).scenes()[old(self).active()];
                s.wf() && lights_in_range(s.models@, s.light_buffer.count(), s.light_buffer.elem_size())
            },
        ensures
            final(self).wf(),
            final(self).active() == old(self).active(),
            final(self).material_state() == old(self).material_state(),
            final(self).texture_state() == old(self).texture_state(),
            final(self).scenes().dom() == old(self).scenes().dom(),
            !old(self).scenes().contains_key(old(self).active()) ==> final(self).scenes() == old(self).scenes()
                && ops@.len() == 0,
            old(self).scenes().contains_key(old(self).active()) ==> {
                &&& scene_refreshed(
                    old(self).scenes()[old(self).active()],
                    final(self).scenes()[old(self).active()],
                    ops@,
                )
                &&& final(self).scenes() == old(self).scenes().insert(
                    old(self).active(),
                    final(self).scenes()[old(self).active()],
                )
            },
    {
        let ghost old_view = self.scenes();
        let ghost pos_map = scene_positions(self.index);
        match scenes_get(&self.index, self.active_scene) {
            None => {
                proof {
                    assert(self.scenes() =~= old_view);
                }
                Vec::new()
            },
            Some(pos) => {
                let ghost before = self.scenes@[pos as int];
                let mut ops = self.scenes[pos].update_meshes();
                let ghost mid = self.scenes@[pos as int];
                proof {
                    assert(same_root_lights(before.models@, mid.models@));
                    lemma_same_root_lights(before.models@, mid.models@, before.light_buffer.elem_size());
                }
                let mut light_ops = self.scenes[pos].update_lights();
                ops.append(&mut light_ops);
                proof {
                    let after = self.scenes@[pos as int];
                    assert forall|i: int| 0 <= i < before.models@.len() implies refreshed(
                        before.models@[i],
                        #[trigger] after.models@[i],
                        before.models@[i].children@,
                    ) by {
                        assert(crate::scene::meshes_refreshed(before.models@[i], mid.models@[i]));
                        assert(crate::scene::light_refreshed(mid.models@[i], after.models@[i]));
                    }
                    assert(self.scenes().dom() =~= old_view.dom());
                    assert(self.scenes() =~= old_view.insert(self.active_scene, after)) by {
                        assert forall|id: usize| #[trigger] self.scenes().contains_key(id) && id != self.active_scene implies self.scenes()[id]
                            == old_view[id] by {
                            assert(pos_map[id] != pos_map[self.active_scene]);
                        }
                    }
                }
                ops
            },
        }
    }

    /// Makes `scene` the scene shown, under an id one above the highest
    /// one in use (1 in an empty world), which is returned. The scene is
    /// stored under that id cut down to 32 bits, which it also gets as its
    /// own id.
    pub fn add_scene(&mut self, scene: Scene<G, L, T>) -> (id: usize)
        requires
            old(self).wf(),
            forall|k: usize| #[trigger] old(self).scenes().contains_key(k) ==> k < usize::MAX,
        ensures
            final(self).wf(),
            forall|k: usize| #[trigger] old(self).scenes().contains_key(k) ==> k < id,
            old(self).scenes().dom() == Set::<usize>::empty() ==> id == 1,
            old(self).scenes().dom() != Set::<usize>::empty() ==> old(self).scenes().contains_key((id - 1) as usize),
            final(self).active() == id,
            final(self).scenes() == old(self).scenes().insert(id as u32 as usize, renumbered(scene, id as u32)),
            final(self).material_state() == old(self).material_state(),
            final(self).texture_state() == old(self).texture_state(),
    {
        let ghost old_view = self.scenes();
        let ghost pos_map = scene_positions(self.index);
        let keys = scenes_keys(&self.index);
        let mut max: usize = 0;
        let mut i: usize = 0;
        while i < keys.len()
            invariant
                i <= keys@.len(),
                forall|j: int| 0 <= j < keys@.len() ==> pos_map.contains_key(#[trigger] keys@[j]),
                forall|j: int| 0 <= j < i ==> #[trigger] keys@[j] <= max,
                i == 0 ==> max == 0,
                i > 0 ==> exists|j: int| 0 <= j < i && #[trigger] keys@[j] == max,
            decreases keys@.len() - i,
        {
            if keys[i] > max || i == 0 {
                max = keys[i];
            }
            i += 1;
        }
        proof {
            assert(old_view.dom() =~= pos_map.dom());
            if keys@.len() > 0 {
                let j = choose|j: int| 0 <= j < i && #[trigger] keys@[j] == max;
                assert(pos_map.contains_key(keys@[j]));
            }
            assert forall|k: usize| #[trigger] old_view.contains_key(k) implies k <= max by {
                assert(keys@.contains(k));
                let j = choose|j: int| 0 <= j < keys@.len() && keys@[j] == k;
                assert(keys@[j] <= max);
            }
            if old_view.dom() != Set::<usize>::empty() {
                if !(exists|x: usize| old_view.dom().contains(x)) {
                    assert(old_view.dom() =~= Set::<usize>::empty());
                }
                let k = old_view.dom().choose();
                assert(old_view.contains_key(k));
                assert(keys@.contains(k));
            }
        }
        let id = max + 1;
        self.active_scene = id;
        let mut scene = scene;
        let sid = #[verifier::truncate] (id as u32);
        scene.id = sid;
        self.store_scene(sid as usize, scene);
        id
    }

    /// Stores `scene` under the id `key`, in place of the scene stored
    /// there, if any.
    fn store_scene(&mut self, key: usize, scene: Scene<G, L, T>)
        requires
            old(self).wf(),
        ensures
            final(self).wf(),
            final(self).scenes() == old(self).scenes().insert(key, scene),
            final(self).active() == old(self).active(),
            final(self).material_state() == old(self).material_state(),
            final(self).texture_state() == old(self).texture_state(),
    {
        let ghost old_view = self.scenes();
        let ghost pos_map = scene_positions(self.index);
        match scenes_get(&self.index, key) {
            Some(pos) => {
                self.scenes.set(pos, scene);
                proof {
                    assert(self.scenes() =~= old_view.insert(key, scene)) by {
                        assert forall|k: usize| #[trigger] self.scenes().contains_key(k) && k != key implies self.scenes()[k]
                            == old_view[k] by {
                            assert(pos_map[k] != pos_map[key]);
                        }
                    }
                }
            },
            None => {
                let n = self.scenes.len();
                self.scenes.push(scene);
                scenes_insert(&mut self.index, key, n);
                proof {
                    let p2 = scene_positions(self.index);
                    assert(p2 == pos_map.insert(key, n));
                    assert(p2.dom() == pos_map.dom().insert(key));
                    assert forall|a: usize, b: usize|
                        #[trigger] p2.contains_key(a) && #[trigger] p2.contains_key(b) && p2[a] == p2[b] implies a == b by {
                        if a != key && b != key {
                            assert(pos_map.contains_key(a) && pos_map.contains_key(b));
                        } else if a == key && b != key {
                            assert(pos_map.contains_key(b));
                        } else if a != key && b == key {
                            assert(pos_map.contains_key(a));
                        }
                    }
                    assert forall|i: int| 0 <= i < self.scenes@.len() implies #[trigger] has_position(p2, i) by {
                        if i < n {
                            assert(has_position(pos_map, i));
                            let a = choose|a: usize| #[trigger] pos_map.contains_key(a) && pos_map[a] == i;
                            assert(p2.contains_key(a) && p2[a] == i);
                        } else {
                            assert(p2.contains_key(key) && p2[key] == i);
                        }
                    }
                    assert(self.scenes() =~= old_view.insert(key, scene)) by {
                        assert forall|k: usize| #[trigger] self.scenes().contains_key(k) && k != key implies self.scenes()[k]
                            == old_view[k] by {
                            assert(pos_map.contains_key(k));
                            assert(pos_map[k] < n);
                        }
                    }
                }
            },
        }
    }

    /// Takes the model with id `model_id` out of the first scene that holds
    /// it, visiting the scenes in the order of the scene index. Each scene
    /// visited rewrites its dirty root meshes and lights (see
    /// `Scene::remove_model`). Returns the id of the scene the model was
    /// taken from with the model, if any, and the rewrites of each scene
    /// visited, in visiting order.
    pub fn remove_model(&mut self, model_id: u32) -> (r: (Option<(usize, Model<G, L, T>)>, Vec<SceneWrites>))
        requires
            old(self).wf(),
            removable(old(self).scenes(), model_id),
        ensures
            final(self).wf(),
            final(self).active() == old(self).active(),
            final(self).material_state() == old(self).material_state(),
            final(self).texture_state() == old(self).texture_state(),
            final(self).scenes().dom() == old(self).scenes().dom(),
            removed_in_world(old(self).scenes(), final(self).scenes(), model_id, r.0, r.1@),
    {
        let ghost old_view = self.scenes();
        let ghost pos_map = scene_positions(self.index);
        let keys = scenes_keys(&self.index);
        proof {
            assert(old_view.dom() =~= pos_map.dom());
            reveal(removed_in_world);
        }
        let mut writes: Vec<SceneWrites> = Vec::new();
        let n = keys.len();
        let mut i: usize = 0;
        while i < n
            invariant
                n == keys@.len(),
                i <= n,
                scene_positions(self.index) == pos_map,
                old_view.dom() == pos_map.dom(),
                self.wf(),
                self.scenes@.len() == old(self).scenes@.len(),
                self.active_scene == old(self).active_scene,
                self.materials == old(self).materials,
                self.textures == old(self).textures,
                removable(old_view, model_id),
                forall|j: int| 0 <= j < n ==> pos_map.contains_key(#[trigger] keys@[j]),
                forall|a: int, b: int| 0 <= a < b < n ==> keys@[a] != keys@[b],
                forall|k: usize| #[trigger] pos_map.contains_key(k) ==> keys@.contains(k),
                old_view == old(self).scenes(),
                writes@.len() == i,
                forall|j: int| 0 <= j < i ==> (#[trigger] writes@[j]).scene_id == keys@[j],
                forall|j: int|
                    0 <= j < i ==> {
                        &&& !forest_contains(old_view[#[trigger] keys@[j]].models@, model_id)
                        &&& removal(old_view[keys@[j]], self.scenes()[keys@[j]], model_id, None, writes@[j].writes@)
                    },
                forall|sid: usize|
                    #[trigger] pos_map.contains_key(sid) && (forall|j: int| 0 <= j < i ==> keys@[j] != sid)
                        ==> self.scenes()[sid] == old_view[sid],
            decreases n - i,
        {
            let id = keys[i];
            let pos = scenes_get(&self.index, id).unwrap();
            let ghost before = self.scenes();
            proof {
                assert(pos_map.contains_key(id));
                assert(old_view.contains_key(id));
                assert(forall|j: int| 0 <= j < i ==> keys@[j] != id);
                assert(before[id] == old_view[id]);
            }
            let (found, ops) = self.scenes[pos].remove_model(model_id);
            let ghost after_scene = self.scenes@[pos as int];
            proof {
                assert(self.scenes() =~= before.insert(id, after_scene)) by {
                    assert forall|k: usize| #[trigger] self.scenes().contains_key(k) && k != id implies self.scenes()[k]
                        == before[k] by {
                        assert(pos_map[k] != pos_map[id]);
                    }
                }
            }
            writes.push(SceneWrites { scene_id: id, writes: ops });
            match found {
                Some(m) => {
                    proof {
                        assert(old_view.contains_key(id) && forest_contains(old_view[id].models@, model_id));
                        assert(self.scenes().dom() =~= old_view.dom());
                        assert forall|a: int, b: int| 0 <= a < b < writes@.len() implies writes@[a].scene_id
                            != writes@[b].scene_id by {
                            assert(writes@[a].scene_id == keys@[a]);
                            assert(writes@[b].scene_id == keys@[b]);
                        }
                        assert forall|j: int| 0 <= j < writes@.len() implies {
                            &&& old_view.contains_key(#[trigger] writes@[j].scene_id)
                            &&& removal(
                                old_view[writes@[j].scene_id],
                                self.scenes()[writes@[j].scene_id],
                                model_id,
                                found_at(Some((id, m)), j, writes@.len() as int),
                                writes@[j].writes@,
                            )
                        } by {
                            if j < i {
                                assert(writes@[j].scene_id == keys@[j]);
                                assert(keys@[j] != id);
                            }
                        }
                        assert forall|sid: usize|
                            #[trigger] old_view.contains_key(sid) && (forall|j: int|
                                0 <= j < writes@.len() ==> writes@[j].scene_id != sid) implies self.scenes()[sid]
                            == old_view[sid] by {
                            assert forall|j: int| 0 <= j < i implies keys@[j] != sid by {
                                assert(writes@[j].scene_id == keys@[j]);
                            }
                            assert(writes@[i as int].scene_id != sid);
                        }
                    }
                    proof {
                        reveal(removed_in_world);
                    }
                    return (Some((id, m)), writes);
                },
                None => {},
            }
            i += 1;
        }
        proof {
            assert forall|sid: usize| #[trigger] old_view.contains_key(sid) implies !forest_contains(
                old_view[sid].models@,
                model_id,
            ) by {
                assert(keys@.contains(sid));
                let j = choose|j: int| 0 <= j < n && keys@[j] == sid;
                assert(!forest_contains(old_view[keys@[j]].models@, model_id));
            }
            assert forall|a: int, b: int| 0 <= a < b < writes@.len() implies writes@[a].scene_id != writes@[b].scene_id by {
                assert(writes@[a].scene_id == keys@[a]);
                assert(writes@[b].scene_id == keys@[b]);
            }
            assert forall|sid: usize|
                #[trigger] old_view.contains_key(sid) && (forall|j: int|
                    0 <= j < writes@.len() ==> writes@[j].scene_id != sid) implies self.scenes()[sid] == old_view[sid] by {
                assert forall|j: int| 0 <= j < n implies keys@[j] != sid by {
                    assert(writes@[j].scene_id == keys@[j]);
                }
            }
            assert(self.scenes().dom() =~= old_view.dom());
        }
        (None, writes)
    }

    /// Whether every scene is well formed and has its dirty lights in range
    /// (see `settled`).
    pub fn is_settled(&self) -> (r: bool)
        requires
            self.wf(),
        ensures
            r == settled(self.scenes()),
    {
        let keys = self.scene_ids();
        let n = keys.len();
        let mut i: usize = 0;
        while i < n
            invariant
                n == keys@.len(),
                i <= n,
                self.wf(),
                forall|j: int| 0 <= j < n ==> self.scenes().contains_key(#[trigger] keys@[j]),
                forall|id: usize| #[trigger] self.scenes().contains_key(id) ==> keys@.contains(id),
                forall|j: int|
                    0 <= j < i ==> {
                        let s = self.scenes()[#[trigger] keys@[j]];
                        s.wf() && lights_in_range(s.models@, s.light_buffer.count(), s.light_buffer.elem_size())
                    },
            decreases n - i,
        {
            let scene = self.get_scene(keys[i]).unwrap();
            if !scene.is_wf() || !scene.lights_fit() {
                return false;
            }
            i += 1;
        }
        proof {
            assert forall|sid: usize| #[trigger] self.scenes().contains_key(sid) implies {
                let s = self.scenes()[sid];
                s.wf() && lights_in_range(s.models@, s.light_buffer.count(), s.light_buffer.elem_size())
            } by {
                assert(keys@.contains(sid));
                let j = choose|j: int| 0 <= j < n && keys@[j] == sid;
                assert(keys@[j] == sid);
            }
        }
        true
    }

    /// Joins the roots of `other` into the scene shown (see `Scene::join`).
    /// Fails with `NoScene` when that scene does not exist and with
    /// `CannotAttach` when `other` cannot be joined into it; the world is
    /// then unchanged.
    pub fn import_scene(&mut self, other: Scene<G, L, T>) -> (r: Result<Vec<BufferWrite>, WorldError>)
        requires
            old(self).wf(),
        ensures
            final(self).wf(),
            final(self).active() == old(self).active(),
            final(self).material_state() == old(self).material_state(),
            final(self).texture_state() == old(self).texture_state(),
            !old(self).scenes().contains_key(old(self).active()) ==> r == Err::<Vec<BufferWrite>, WorldError>(
                WorldError::NoScene,
            ) && final(self).scenes() == old(self).scenes(),
            old(self).scenes().contains_key(old(self).active()) ==> {
                let s = old(self).scenes()[old(self).active()];
                &&& !joinable(s, other) ==> r == Err::<Vec<BufferWrite>, WorldError>(WorldError::CannotAttach)
                    && final(self).scenes() == old(self).scenes()
                &&& joinable(s, other) ==> {
                    &&& r matches Ok(ops) && joined(s, other, final(self).scenes()[old(self).active()], ops@)
                    &&& final(self).scenes() == old(self).scenes().insert(
                        old(self).active(),
                        final(self).scenes()[old(self).active()],
                    )
                }
            },
    {
        let ghost old_view = self.scenes();
        let active = self.active_scene;
        match self.scene_mut(active) {
            None => Err(WorldError::NoScene),
            Some(scene) => {
                if scene.can_join(&other) {
                    Ok(scene.join(other))
                } else {
                    proof {
                        assert(old_view.insert(active, old_view[active]) =~= old_view);
                    }
                    Err(WorldError::CannotAttach)
                }
            },
        }
    }

    /// Creates a light model in the scene shown, under the root `parent_id`
    /// or as a new root: the light takes the slot after the `camera`'s
    /// light count and the data `place_light` gives for the `identity`
    /// parent, `transform` and `data` (see `Model::update_transforms`).
    /// Fails with `NoScene` when the scene shown does not exist and with
    /// `CannotAttach` when the model cannot be added there (see
    /// `addable`); the world is then unchanged.
    pub fn create_light<FM, FL, FC>(
        &mut self,
        camera: &CameraSync,
        data: L,
        transform: T,
        parent_id: Option<u32>,
        identity: &T,
        place_mesh: &FM,
        place_light: &FL,
        compose: &FC,
    ) -> (r: Result<Vec<BufferWrite>, WorldError>) where
        FM: Fn(&T, &T, &G) -> G,
        FL: Fn(&T, &T, &L) -> L,
        FC: Fn(&T, &T) -> T,
        requires
            old(self).wf(),
            forall|p: &T, t: &T, g: &G| #[trigger] place_mesh.requires((p, t, g)),
            forall|p: &T, t: &T, l: &L| #[trigger] place_light.requires((p, t, l)),
            forall|p: &T, t: &T| #[trigger] compose.requires((p, t)),
            functional(*compose),
        ensures
            final(self).wf(),
            final(self).active() == old(self).active(),
            final(self).material_state() == old(self).material_state(),
            final(self).texture_state() == old(self).texture_state(),
            !old(self).scenes().contains_key(old(self).active()) ==> r == Err::<Vec<BufferWrite>, WorldError>(
                WorldError::NoScene,
            ) && final(self).scenes() == old(self).scenes(),
            old(self).scenes().contains_key(old(self).active()) ==> exists|m: Model<G, L, T>| {
                let s = old(self).scenes()[old(self).active()];
                &&& #[trigger] light_model(m, camera.lights() as usize, data, transform, *identity, *place_light)
                &&& !addable(s, m, parent_id) ==> r == Err::<Vec<BufferWrite>, WorldError>(WorldError::CannotAttach)
                    && final(self).scenes() == old(self).scenes()
                &&& addable(s, m, parent_id) ==> {
                    &&& r matches Ok(ops) && model_added(s, m, parent_id, final(self).scenes()[old(self).active()], ops@)
                    &&& final(self).scenes() == old(self).scenes().insert(
                        old(self).active(),
                        final(self).scenes()[old(self).active()],
                    )
                }
            },
    {
        let ghost old_view = self.scenes();
        let active = self.active_scene;
        if self.get_scene(active).is_none() {
            return Err(WorldError::NoScene);
        }
        let slot = camera.light_count() as usize;
        let light = PointLight::new(slot, data);
        let mut model = Model::from(Vec::new(), None, Vec::new(), transform, Some(light));
        let ghost fresh = model;
        model.update_transforms(identity, place_mesh, place_light, compose);
        proof {
            assert(fresh.meshes@.len() == 0);
            assert(model.meshes@.len() == 0);
            assert(light_model(model, slot, data, transform, *identity, *place_light));
        }
        let scene = self.scene_mut(active).unwrap();
        if scene.can_add_model(&model, parent_id) {
            let ghost m = model;
            let ops = scene.add_model(model, parent_id);
            proof {
                assert(light_model(m, slot, data, transform, *identity, *place_light));
            }
            Ok(ops)
        } else {
            proof {
                assert(old_view.insert(active, old_view[active]) =~= old_view);
            }
            Err(WorldError::CannotAttach)
        }
    }

    /// Moves the model with id `model_id` under the root `new_parent_id` of
    /// the scene `new_scene_id`, or makes it a root there: the model is
    /// taken out as by `remove_model`, then added as by `Scene::add_model`.
    /// Fails with `NoScene`, changing nothing, when the target scene does
    /// not exist; with `NotFound` when no scene holds the model; and with
    /// `CannotAttach` when the model, once taken out, cannot be added to the
    /// target (see `addable`), which leaves it taken out. Returns the
    /// rewrites of each scene visited, the target's last.
    pub fn change_model_parent(&mut self, model_id: u32, new_parent_id: Option<u32>, new_scene_id: u32) -> (r: (
        Result<(), WorldError>,
        Vec<SceneWrites>,
    ))
        requires
            old(self).wf(),
            removable(old(self).scenes(), model_id),
        ensures
            final(self).wf(),
            final(self).active() == old(self).active(),
            final(self).material_state() == old(self).material_state(),
            final(self).texture_state() == old(self).texture_state(),
            !old(self).scenes().contains_key(new_scene_id as usize) ==> r.0 == Err::<(), WorldError>(
                WorldError::NoScene,
            ) && r.1@.len() == 0 && final(self).scenes() == old(self).scenes(),
            old(self).scenes().contains_key(new_scene_id as usize) ==> parent_changed(
                old(self).scenes(),
                final(self).scenes(),
                model_id,
                new_parent_id,
                new_scene_id as usize,
                r.0,
                r.1@,
            ),
    {
        let target = new_scene_id as usize;
        if self.get_scene(target).is_none() {
            return (Err(WorldError::NoScene), Vec::new());
        }
        let (found, mut writes) = self.remove_model(model_id);
        let ghost mid = self.scenes();
        let ghost k = writes@.len() as int;
        let ghost removed = writes@;
        match found {
            None => {
                proof {
                    assert(writes@.take(k) =~= removed);
                    assert(removed_in_world(old(self).scenes(), mid, model_id, None, writes@.take(k)));
                    assert(parent_changed(old(self).scenes(), self.scenes(), model_id, new_parent_id, target, Err(WorldError::NotFound), writes@));
                }
                (Err(WorldError::NotFound), writes)
            },
            Some(f) => {
                let ghost gf = f;
                let model = f.1;
                let scene = self.scene_mut(target).unwrap();
                if scene.can_add_model(&model, new_parent_id) {
                    let ops = scene.add_model(model, new_parent_id);
                    writes.push(SceneWrites { scene_id: target, writes: ops });
                    proof {
                        assert(writes@.take(k) =~= removed);
                        assert(removed_in_world(old(self).scenes(), mid, model_id, Some(gf), writes@.take(k)));
                        assert(parent_changed(old(self).scenes(), self.scenes(), model_id, new_parent_id, target, Ok(()), writes@));
                    }
                    (Ok(()), writes)
                } else {
                    proof {
                        assert(mid.insert(target, mid[target]) =~= mid);
                        assert(writes@.take(k) =~= removed);
                        assert(removed_in_world(old(self).scenes(), mid, model_id, Some(gf), writes@.take(k)));
                        assert(parent_changed(old(self).scenes(), self.scenes(), model_id, new_parent_id, target, Err(WorldError::CannotAttach), writes@));
                    }
                    (Err(WorldError::CannotAttach), writes)
                }
            },
        }
    }

    /// Adds, to each scene that holds a model with id `model_id`, a
    /// duplicate of the first such model in its deep walk as a new root
    /// (see `duplicated`), its meshes' data copied by `copy_data`; a scene
    /// without room for the copy is left as it is. Returns the rewrites of
    /// every scene, in the order of the scene index.
    pub fn duplicate_model<FD>(&mut self, model_id: u32, copy_data: &FD) -> (r: Vec<SceneWrites>) where
        T: Clone,
        FD: Fn(&G) -> G,
        requires
            old(self).wf(),
            forall|g: &G| #[trigger] copy_data.requires((g,)),
        ensures
            final(self).wf(),
            final(self).active() == old(self).active(),
            final(self).material_state() == old(self).material_state(),
            final(self).texture_state() == old(self).texture_state(),
            final(self).scenes().dom() == old(self).scenes().dom(),
            forall|i: int, j: int| 0 <= i < j < r@.len() ==> r@[i].scene_id != r@[j].scene_id,
            forall|sid: usize|
                #[trigger] old(self).scenes().contains_key(sid) ==> exists|i: int|
                    0 <= i < r@.len() && r@[i].scene_id == sid,
            forall|i: int|
                0 <= i < r@.len() ==> {
                    &&& old(self).scenes().contains_key(#[trigger] r@[i].scene_id)
                    &&& duplicated(
                        old(self).scenes()[r@[i].scene_id],
                        final(self).scenes()[r@[i].scene_id],
                        model_id,
                        r@[i].writes@,
                        *copy_data,
                    )
                },
    {
        let ghost old_view = self.scenes();
        let keys = self.scene_ids();
        let mut writes: Vec<SceneWrites> = Vec::new();
        let n = keys.len();
        let mut i: usize = 0;
        while i < n
            invariant
                forall|g: &G| #[trigger] copy_data.requires((g,)),
                n == keys@.len(),
                i <= n,
                self.wf(),
                self.active() == old(self).active(),
                self.material_state() == old(self).material_state(),
                self.texture_state() == old(self).texture_state(),
                self.scenes().dom() == old_view.dom(),
                old_view == old(self).scenes(),
                forall|j: int| 0 <= j < n ==> old_view.contains_key(#[trigger] keys@[j]),
                forall|a: int, b: int| 0 <= a < b < n ==> keys@[a] != keys@[b],
                forall|k: usize| #[trigger] old_view.contains_key(k) ==> keys@.contains(k),
                writes@.len() == i,
                forall|j: int| 0 <= j < i ==> (#[trigger] writes@[j]).scene_id == keys@[j],
                forall|j: int|
                    0 <= j < i ==> duplicated(
                        old_view[#[trigger] keys@[j]],
                        self.scenes()[keys@[j]],
                        model_id,
                        writes@[j].writes@,
                        *copy_data,
                    ),
                forall|sid: usize|
                    #[trigger] old_view.contains_key(sid) && (forall|j: int| 0 <= j < i ==> keys@[j] != sid)
                        ==> self.scenes()[sid] == old_view[sid],
            decreases n - i,
        {
            let id = keys[i];
            proof {
                assert(old_view.contains_key(id));
                assert(forall|j: int| 0 <= j < i ==> keys@[j] != id);
            }
            let ghost before = self.scenes();
            let ghost s0 = old_view[id];
            let copy = match self.get_scene(id).unwrap().find_model(model_id) {
                Some(m) => Some(m.duplicate(copy_data)),
                None => None,
            };
            let scene = self.scene_mut(id).unwrap();
            let ops = match copy {
                Some(c) => {
                    let ghost src = first_deep(s0.models@, model_id);
                    proof {
                        lemma_lights_in_range_concat(s0.models@, seq![c], s0.light_buffer.count(), s0.light_buffer.elem_size());
                        assert(s0.models@.push(c) =~= s0.models@ + seq![c]);
                        assert(seq![c][0] == c);
                        assert(addable(s0, c, None) == (s0.wf() && can_push_each(s0.mesh_buffer.array(), src.meshes@.len())
                            && lights_in_range(s0.models@, s0.light_buffer.count(), s0.light_buffer.elem_size())));
                    }
                    if scene.can_add_model(&c, None) {
                        let ghost gc = c;
                        let ops = scene.add_model(c, None);
                        proof {
                            assert(duplicate_of(src, gc, *copy_data) && model_added(s0, gc, None, *final(scene), ops@));
                        }
                        ops
                    } else {
                        Vec::new()
                    }
                },
                None => Vec::new(),
            };
            let ghost after = self.scenes();
            proof {
                assert(after.dom() == before.dom());
                assert forall|sid: usize| #[trigger] after.contains_key(sid) && sid != id implies after[sid] == before[sid] by {}
                assert(duplicated(s0, after[id], model_id, ops@, *copy_data));
            }
            writes.push(SceneWrites { scene_id: id, writes: ops });
            proof {
                assert forall|j: int| 0 <= j < i implies duplicated(
                    old_view[#[trigger] keys@[j]],
                    after[keys@[j]],
                    model_id,
                    writes@[j].writes@,
                    *copy_data,
                ) by {
                    assert(keys@[j] != id);
                }
            }
            i += 1;
        }
        proof {
            assert forall|sid: usize| #[trigger] old_view.contains_key(sid) implies exists|j: int|
                0 <= j < writes@.len() && writes@[j].scene_id == sid by {
                assert(keys@.contains(sid));
                let j = choose|j: int| 0 <= j < n && keys@[j] == sid;
                assert(writes@[j].scene_id == sid);
            }
            assert forall|a: int, b: int| 0 <= a < b < writes@.len() implies writes@[a].scene_id != writes@[b].scene_id by {
                assert(writes@[a].scene_id == keys@[a]);
                assert(writes@[b].scene_id == keys@[b]);
            }
            assert forall|j: int| 0 <= j < writes@.len() implies {
                &&& old_view.contains_key(#[trigger] writes@[j].scene_id)
                &&& duplicated(
                    old_view[writes@[j].scene_id],
                    self.scenes()[writes@[j].scene_id],
                    model_id,
                    writes@[j].writes@,
                    *copy_data,
                )
            } by {
                assert(writes@[j].scene_id == keys@[j]);
            }
        }
        writes
    }
}

/// Replacing the scene at the position of `id` replaces the scene under
/// `id` and no other.
proof fn lemma_view_update<G, L, T>(
    v: Seq<Scene<G, L, T>>,
    pos: Map<usize, usize>,
    id: usize,
    x: Scene<G, L, T>,
)
    requires
        pos.contains_key(id),
        forall|k: usize| #[trigger] pos.contains_key(k) ==> pos[k] < v.len(),
        forall|a: usize, b: usize| #[trigger] pos.contains_key(a) && #[trigger] pos.contains_key(b) && pos[a] == pos[b] ==> a == b,
    ensures
        Map::new(|k: usize| pos.contains_key(k), |k: usize| v.update(pos[id] as int, x)[pos[k] as int])
            == Map::new(|k: usize| pos.contains_key(k), |k: usize| v[pos[k] as int]).insert(id, x),
{
    let a = Map::new(|k: usize| pos.contains_key(k), |k: usize| v.update(pos[id] as int, x)[pos[k] as int]);
    let b = Map::new(|k: usize| pos.contains_key(k), |k: usize| v[pos[k] as int]).insert(id, x);
    assert forall|k: usize| #[trigger] a.contains_key(k) && k != id implies a[k] == b[k] by {
        assert(pos[k] != pos[id]);
    }
    assert(a =~= b);
}

/// Some id is sent to position `i`.
pub open spec fn has_position(pos: Map<usize, usize>, i: int) -> bool {
    exists|id: usize| #[trigger] pos.contains_key(id) && pos[id] == i
}

/// The `i`-th of the scene records `rs` is the last one with the id `id`.
pub open spec fn last_with_scene_id<P, T>(rs: Seq<SceneSerde<P, T>>, id: usize, i: int) -> bool {
    &&& 0 <= i < rs.len()
    &&& rs[i].id as usize == id
    &&& forall|j: int| i < j < rs.len() ==> rs[j].id as usize != id
}

/// `r` records the scene `s`: its id, name and roots (see
/// `forest_recorded`).
pub open spec fn scene_recorded<P, L, T, F>(
    s: Scene<MeshData<P>, L, T>,
    r: SceneSerde<P, T>,
    mats: Map<DefaultKey, Material<F>>,
) -> bool {
    &&& r.id == s.id
    &&& r.name == s.name
    &&& forest_recorded(s.models@, r.models@, mats)
}

/// The records `rs` hold the scenes `scenes`, each once: the `i`-th
/// records the scene stored under the `i`-th of some distinct ids that
/// cover all stored scenes.
pub open spec fn scenes_recorded<P, L, T, F>(
    scenes: Map<usize, Scene<MeshData<P>, L, T>>,
    rs: Seq<SceneSerde<P, T>>,
    mats: Map<DefaultKey, Material<F>>,
) -> bool {
    exists|ks: Seq<usize>|
        #![trigger ks.len()]
        {
            &&& ks.len() == rs.len()
            &&& forall|i: int, j: int| 0 <= i < j < ks.len() ==> ks[i] != ks[j]
            &&& forall|key: usize| #[trigger] scenes.contains_key(key) ==> ks.contains(key)
            &&& forall|i: int|
                0 <= i < ks.len() ==> scenes.contains_key(#[trigger] ks[i]) && scene_recorded(scenes[ks[i]], rs[i], mats)
        }
}

/// Saving and loading keep a scene: the scene read back from the record of
/// a scene has its id, name and roots, but for lights and what is due for
/// an upload (see `same_content`).
pub proof fn lemma_scene_round_trip<P, L, T, F>(
    s: Scene<MeshData<P>, L, T>,
    r: SceneSerde<P, T>,
    back: Scene<MeshData<P>, L, T>,
    ops: Seq<BufferWrite>,
    materials: MaterialManager<F>,
    mesh_info_size: nat,
    light_info_size: nat,
)
    requires
        materials.wf(),
        scene_recorded(s, r, materials.entries()),
        scene_read(r, back, ops, materials.entries(), mesh_info_size, light_info_size),
    ensures
        back.id == s.id,
        back.name == s.name,
        forest_same_content(s.models@, back.models@),
{
    lemma_forest_round_trip(s.models@, back.models@, r.models@, materials);
}

impl<P, L, T, F, D> World<MeshData<P>, L, T, F, D> {
    /// A world read from the scene records of a world file, with its
    /// materials and textures already read: each record becomes a scene
    /// stored under its id (see `scene_read`; a later record under an id
    /// replaces an earlier one), and scene 0 is the one shown. Also returns
    /// the uploads each scene asked for, record by record. None exactly when
    /// some record cannot be read (see `scene_readable`).
    #[verifier::loop_isolation(false)]
    pub fn from_serde(
        records: Vec<SceneSerde<P, T>>,
        materials: MaterialManager<F>,
        textures: TextureManager<D>,
        mesh_info_size: u64,
        light_info_size: u64,
    ) -> (o: Option<(Self, Vec<SceneWrites>)>)
        requires
            materials.wf(),
        ensures
            o is Some <==> forall|i: int|
                0 <= i < records@.len() ==> scene_readable(
                    #[trigger] records@[i],
                    materials.entries(),
                    mesh_info_size as nat,
                    light_info_size as nat,
                ),
            o matches Some(x) ==> {
                &&& x.0.wf()
                &&& x.0.active() == 0
                &&& x.0.material_state() == materials
                &&& x.0.texture_state() == textures
                &&& forall|key: usize|
                    x.0.scenes().contains_key(key) <==> exists|i: int|
                        0 <= i < records@.len() && #[trigger] records@[i].id as usize == key
                &&& x.1@.len() == records@.len()
                &&& forall|i: int| 0 <= i < records@.len() ==> (#[trigger] x.1@[i]).scene_id == records@[i].id as usize
                &&& forall|i: int|
                    #[trigger] last_with_scene_id(records@, records@[i].id as usize, i) ==> scene_read(
                        records@[i],
                        x.0.scenes()[records@[i].id as usize],
                        x.1@[i].writes@,
                        materials.entries(),
                        mesh_info_size as nat,
                        light_info_size as nat,
                    )
            },
    {
        let ghost all = records@;
        let ghost mats0 = materials;
        let mut world = World::new(materials, textures);
        let mut records = records;
        let mut writes: Vec<SceneWrites> = Vec::new();
        let n = records.len();
        let mut k: usize = 0;
        while k < n
            invariant
                n == all.len(),
                k <= n,
                records@ == all.subrange(k as int, n as int),
                world.wf(),
                world.active() == 0,
                world.material_state() == mats0,
                world.materials == mats0,
                world.texture_state() == textures,
                writes@.len() == k,
                forall|i: int| 0 <= i < k ==> (#[trigger] writes@[i]).scene_id == all[i].id as usize,
                forall|i: int|
                    0 <= i < k ==> scene_readable(#[trigger] all[i], mats0.entries(), mesh_info_size as nat, light_info_size as nat),
                forall|key: usize|
                    world.scenes().contains_key(key) <==> exists|i: int| 0 <= i < k && #[trigger] all[i].id as usize == key,
                forall|i: int|
                    #[trigger] last_with_scene_id(all.take(k as int), all[i].id as usize, i) ==> scene_read(
                        all[i],
                        world.scenes()[all[i].id as usize],
                        writes@[i].writes@,
                        mats0.entries(),
                        mesh_info_size as nat,
                        light_info_size as nat,
                    ),
            decreases n - k,
        {
            let record = records.remove(0);
            proof {
                assert(record == all[k as int]);
                assert(records@ =~= all.subrange(k + 1, n as int));
            }
            let key = record.id as usize;
            let (scene, ops) = match scene_from_serde(record, &world.materials, mesh_info_size, light_info_size) {
                Some(x) => x,
                None => {
                    return None;
                },
            };
            let ghost gs = scene;
            let ghost before = world.scenes();
            world.store_scene(key, scene);
            writes.push(SceneWrites { scene_id: key, writes: ops });
            proof {
                let t = all.take(k + 1);
                assert forall|key2: usize| world.scenes().contains_key(key2) <==> exists|i: int|
                    0 <= i < k + 1 && #[trigger] all[i].id as usize == key2 by {
                    if key2 == key {
                        assert(all[k as int].id as usize == key);
                    }
                }
                assert forall|i: int| #[trigger] last_with_scene_id(t, all[i].id as usize, i) implies scene_read(
                    all[i],
                    world.scenes()[all[i].id as usize],
                    writes@[i].writes@,
                    mats0.entries(),
                    mesh_info_size as nat,
                    light_info_size as nat,
                ) by {
                    if i < k {
                        assert(t[k as int].id as usize != all[i].id as usize);
                        assert(last_with_scene_id(all.take(k as int), all[i].id as usize, i)) by {
                            assert forall|j: int| i < j < k implies all.take(k as int)[j].id as usize != all[i].id as usize by {
                                assert(t[j] == all.take(k as int)[j]);
                            }
                        }
                        assert(writes@[i] == writes@.drop_last()[i]);
                    } else {
                        assert(i == k);
                    }
                }
            }
            k += 1;
        }
        proof {
            assert(all.take(n as int) =~= all);
        }
        Some((world, writes))
    }

    /// Whether every mesh of every scene is shaded with a material of the
    /// world (what `to_serde` requires of the scenes).
    pub fn scenes_shaded(&self) -> (r: bool)
        requires
            self.wf(),
            self.material_state().wf(),
        ensures
            r == forall|key: usize|
                #[trigger] self.scenes().contains_key(key) ==> forest_shaded_by(
                    self.scenes()[key].models@,
                    self.material_state().entries(),
                ),
    {
        let keys = self.scene_ids();
        let n = keys.len();
        let mut i: usize = 0;
        while i < n
            invariant
                n == keys@.len(),
                i <= n,
                self.wf(),
                self.material_state().wf(),
                forall|j: int| 0 <= j < n ==> self.scenes().contains_key(#[trigger] keys@[j]),
                forall|id: usize| #[trigger] self.scenes().contains_key(id) ==> keys@.contains(id),
                forall|j: int|
                    0 <= j < i ==> forest_shaded_by(
                        self.scenes()[#[trigger] keys@[j]].models@,
                        self.material_state().entries(),
                    ),
            decreases n - i,
        {
            let scene = self.get_scene(keys[i]).unwrap();
            if !forest_shaded(&scene.models, &self.materials) {
                return false;
            }
            i += 1;
        }
        proof {
            assert forall|key: usize| #[trigger] self.scenes().contains_key(key) implies forest_shaded_by(
                self.scenes()[key].models@,
                self.material_state().entries(),
            ) by {
                assert(keys@.contains(key));
                let j = choose|j: int| 0 <= j < n && keys@[j] == key;
                assert(keys@[j] == key);
            }
        }
        true
    }

    /// The records of all scenes for a world file, each scene once (see
    /// `scenes_recorded`), with the world's materials and textures. Every
    /// mesh must be shaded with a material of the world.
    pub fn to_serde(self) -> (r: (Vec<SceneSerde<P, T>>, MaterialManager<F>, TextureManager<D>))
        requires
            self.wf(),
            self.material_state().wf(),
            forall|key: usize|
                #[trigger] self.scenes().contains_key(key) ==> forest_shaded_by(
                    self.scenes()[key].models@,
                    self.material_state().entries(),
                ),
        ensures
            r.1 == self.material_state(),
            r.2 == self.texture_state(),
            scenes_recorded(self.scenes(), r.0@, self.material_state().entries()),
    {
        let ghost view = self.scenes();
        let ghost pos = scene_positions(self.index);
        let World { scenes, index: _, active_scene: _, materials, textures } = self;
        let mut scenes = scenes;
        let ghost all = scenes@;
        let ghost mats = materials.entries();
        let ghost ks = Seq::new(all.len(), |i: int| choose|key: usize| #[trigger] pos.contains_key(key) && pos[key] == i);
        proof {
            assert forall|i: int| 0 <= i < all.len() implies #[trigger] pos.contains_key(ks[i]) && pos[ks[i]] == i by {
                assert(has_position(pos, i));
            }
            assert forall|i: int| 0 <= i < all.len() implies forest_shaded_by((#[trigger] all[i]).models@, mats) by {
                assert(has_position(pos, i));
                assert(pos.contains_key(ks[i]) && pos[ks[i]] == i);
                assert(view.contains_key(ks[i]));
                assert(view[ks[i]] == all[i]);
            }
        }
        let mut out: Vec<SceneSerde<P, T>> = Vec::new();
        let n = scenes.len();
        let mut k: usize = 0;
        while k < n
            invariant
                n == all.len(),
                k <= n,
                scenes@ == all.subrange(k as int, n as int),
                materials.wf(),
                mats == materials.entries(),
                out@.len() == k,
                forall|i: int| 0 <= i < all.len() ==> #[trigger] pos.contains_key(ks[i]) && pos[ks[i]] == i,
                forall|i: int| 0 <= i < all.len() ==> view[ks[i]] == #[trigger] all[i],
                forall|i: int| 0 <= i < all.len() ==> forest_shaded_by((#[trigger] all[i]).models@, mats),
                forall|i: int| 0 <= i < k ==> scene_recorded(all[i], #[trigger] out@[i], mats),
            decreases n - k,
        {
            let scene = scenes.remove(0);
            proof {
                assert(scene == all[k as int]);
                assert(scenes@ =~= all.subrange(k + 1, n as int));
            }
            let record = scene.to_serde(&materials);
            out.push(record);
            k += 1;
        }
        proof {
            assert(ks.len() == out@.len());
            assert forall|i: int, j: int| 0 <= i < j < ks.len() implies ks[i] != ks[j] by {
                assert(pos.contains_key(ks[i]) && pos[ks[i]] == i);
                assert(pos.contains_key(ks[j]) && pos[ks[j]] == j);
            }
            assert forall|key: usize| #[trigger] view.contains_key(key) implies ks.contains(key) by {
                let i = pos[key] as int;
                assert(pos[ks[i]] == i);
                assert(ks[i] == key);
            }
            assert forall|i: int| 0 <= i < ks.len() implies view.contains_key(#[trigger] ks[i]) && scene_recorded(view[ks[i]], out@[i], mats) by {
                assert(view[ks[i]] == all[i]);
            }
        }
        (out, materials, textures)
    }
}

} // verus!
