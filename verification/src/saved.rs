use crate::buffers::{can_push_each, lemma_can_push_each_prefix, lemma_pushes, pushes, DynamicBufferArray, PushPlan, PREALLOC_COUNT};
use crate::import::MeshData;
use crate::material::{textures_known, Material, MaterialManager, PbrMaterial};
use crate::texture::{Texture, TextureManager};
use crate::scene::mesh::Mesh;
use crate::scene::model::Model;
use crate::scene::{forest_push_ops, keys_pushed, light_count, root_meshes, top_meshes, BufferWrite, Scene};
use slotmap::DefaultKey;
use vstd::prelude::*;

verus! {

/// A texture as written to a world file: its id, its name and the path of
/// its image relative to the run directory.
#[derive(Debug)]
pub struct TextureSerde {
    pub id: u32,
    pub name: Option<String>,
    pub img_path: String,
}

/// The textures of a world file, in order.
#[derive(Debug)]
pub struct TextureManagerSerde {
    pub textures: Vec<TextureSerde>,
}

/// A mesh as written to a world file: its id, the shader id of its material
/// and its geometry `P`.
#[derive(Debug)]
pub struct MeshSerde<P> {
    pub id: u32,
    pub material: u32,
    pub geometry: P,
}

/// A model as written to a world file: its id, meshes, children, name and
/// transform `T`. Lights are not written.
#[derive(Debug)]
pub struct ModelSerde<P, T> {
    pub id: u32,
    pub meshes: Vec<MeshSerde<P>>,
    pub children: Vec<ModelSerde<P, T>>,
    pub name: Option<String>,
    pub transform: T,
}

/// A scene as written to a world file: its id, root models and name.
#[derive(Debug)]
pub struct SceneSerde<P, T> {
    pub id: u32,
    pub models: Vec<ModelSerde<P, T>>,
    pub name: Option<String>,
}

/// The records `rs` hold the meshes `ms` in order: same ids and geometry,
/// and the shader id that `mats` gives each mesh's material.
pub open spec fn meshes_recorded<P, F>(
    ms: Seq<Mesh<MeshData<P>>>,
    rs: Seq<MeshSerde<P>>,
    mats: Map<DefaultKey, Material<F>>,
) -> bool {
    &&& ms.len() == rs.len()
    &&& forall|j: int|
        0 <= j < ms.len() ==> {
            &&& (#[trigger] rs[j]).id == ms[j].id
            &&& rs[j].geometry == ms[j].data.geometry
            &&& mats.contains_key(ms[j].data.material)
            &&& rs[j].material == mats[ms[j].data.material].spec_shader_id()
        }
}

/// `r` records the model `m`: same id, name and transform, its meshes
/// recorded in order (see `meshes_recorded`) and its children recorded
/// likewise. The light is not recorded.
pub open spec fn model_recorded<P, L, T, F>(
    m: Model<MeshData<P>, L, T>,
    r: ModelSerde<P, T>,
    mats: Map<DefaultKey, Material<F>>,
) -> bool
    decreases m,
{
    &&& r.id == m.id
    &&& r.name == m.name
    &&& r.transform == m.transform
    &&& meshes_recorded(m.meshes@, r.meshes@, mats)
    &&& forest_recorded(m.children@, r.children@, mats)
}

/// The records `rs` hold the models `ms` in order (see `model_recorded`).
pub open spec fn forest_recorded<P, L, T, F>(
    ms: Seq<Model<MeshData<P>, L, T>>,
    rs: Seq<ModelSerde<P, T>>,
    mats: Map<DefaultKey, Material<F>>,
) -> bool
    decreases ms,
{
    &&& ms.len() == rs.len()
    &&& ms.len() > 0 ==> {
        &&& forest_recorded(ms.drop_last(), rs.drop_last(), mats)
        &&& model_recorded(ms.last(), rs.last(), mats)
    }
}

/// Every mesh of the model, and of its descendants, is shaded with a
/// material of `mats`.
pub open spec fn model_shaded_by<P, L, T, F>(m: Model<MeshData<P>, L, T>, mats: Map<DefaultKey, Material<F>>) -> bool
    decreases m,
{
    &&& forall|j: int| 0 <= j < m.meshes@.len() ==> mats.contains_key(#[trigger] m.meshes@[j].data.material)
    &&& forest_shaded_by(m.children@, mats)
}

/// Every mesh of the models `ms`, and of their descendants, is shaded with
/// a material of `mats`.
pub open spec fn forest_shaded_by<P, L, T, F>(
    ms: Seq<Model<MeshData<P>, L, T>>,
    mats: Map<DefaultKey, Material<F>>,
) -> bool
    decreases ms,
{
    ms.len() > 0 ==> forest_shaded_by(ms.drop_last(), mats) && model_shaded_by(ms.last(), mats)
}

/// Some material of `mats` has the shader id `id`.
pub open spec fn shader_known<F>(mats: Map<DefaultKey, Material<F>>, id: u32) -> bool {
    exists|k: DefaultKey| #[trigger] mats.contains_key(k) && mats[k].spec_shader_id() == id
}

/// Every mesh record of `r`, and of its descendants, names the shader id of
/// a material of `mats`.
pub open spec fn record_materials_known<P, T, F>(r: ModelSerde<P, T>, mats: Map<DefaultKey, Material<F>>) -> bool
    decreases r,
{
    &&& forall|j: int| 0 <= j < r.meshes@.len() ==> shader_known(mats, (#[trigger] r.meshes@[j]).material)
    &&& records_materials_known(r.children@, mats)
}

/// Every mesh record of the records `rs` names the shader id of a material
/// of `mats` (see `record_materials_known`).
pub open spec fn records_materials_known<P, T, F>(rs: Seq<ModelSerde<P, T>>, mats: Map<DefaultKey, Material<F>>) -> bool
    decreases rs,
{
    rs.len() > 0 ==> records_materials_known(rs.drop_last(), mats) && record_materials_known(rs.last(), mats)
}

/// A model as read from a world file: all its meshes are due for an upload,
/// it has no light, and so are its descendants.
pub open spec fn model_loaded<P, L, T>(m: Model<MeshData<P>, L, T>) -> bool
    decreases m,
{
    &&& forall|j: int| 0 <= j < m.meshes@.len() ==> (#[trigger] m.meshes@[j]).dirty
    &&& m.light is None
    &&& forest_loaded(m.children@)
}

/// Models as read from a world file (see `model_loaded`).
pub open spec fn forest_loaded<P, L, T>(ms: Seq<Model<MeshData<P>, L, T>>) -> bool
    decreases ms,
{
    ms.len() > 0 ==> forest_loaded(ms.drop_last()) && model_loaded(ms.last())
}

impl<P, L, T> Model<MeshData<P>, L, T> {
    /// The record of this model for a world file (see `model_recorded`).
    #[verifier::loop_isolation(false)]
    pub fn to_serde<F>(self, materials: &MaterialManager<F>) -> (r: ModelSerde<P, T>)
        requires
            materials.wf(),
            model_shaded_by(self, materials.entries()),
        ensures
            model_recorded(self, r, materials.entries()),
        decreases self,
    {
        let ghost m0 = self;
        let Model { id, meshes, children, name, transform, light: _ } = self;
        let mut meshes = meshes;
        let mut mesh_records: Vec<MeshSerde<P>> = Vec::new();
        let ghost all_meshes = meshes@;
        let n = meshes.len();
        let mut i: usize = 0;
        while i < n
            invariant
                materials.wf(),
                n == all_meshes.len(),
                all_meshes == m0.meshes@,
                i <= n,
                meshes@ == all_meshes.subrange(i as int, n as int),
                forall|j: int| 0 <= j < n ==> materials.entries().contains_key(#[trigger] all_meshes[j].data.material),
                meshes_recorded(all_meshes.take(i as int), mesh_records@, materials.entries()),
            decreases n - i,
        {
            let mesh = meshes.remove(0);
            proof {
                assert(mesh == all_meshes[i as int]);
                assert(materials.entries().contains_key(all_meshes[i as int].data.material));
            }
            let shader = materials.get_material(mesh.data.material).shader_id();
            let ghost before = mesh_records@;
            mesh_records.push(MeshSerde { id: mesh.id, material: shader, geometry: mesh.data.geometry });
            proof {
                assert(meshes@ =~= all_meshes.subrange(i + 1, n as int));
                let t = all_meshes.take(i + 1);
                assert forall|j: int| 0 <= j < t.len() implies {
                    &&& (#[trigger] mesh_records@[j]).id == t[j].id
                    &&& mesh_records@[j].geometry == t[j].data.geometry
                    &&& materials.entries().contains_key(t[j].data.material)
                    &&& mesh_records@[j].material == materials.entries()[t[j].data.material].spec_shader_id()
                } by {
                    if j < i {
                        assert(t[j] == all_meshes.take(i as int)[j]);
                        assert(mesh_records@[j] == before[j]);
                    }
                }
            }
            i += 1;
        }
        proof {
            assert(all_meshes.take(n as int) =~= all_meshes);
        }
        let mut children = children;
        let ghost all_children = children@;
        let mut child_records: Vec<ModelSerde<P, T>> = Vec::new();
        let c = children.len();
        let mut k: usize = 0;
        while k < c
            invariant
                materials.wf(),
                c == all_children.len(),
                all_children == m0.children@,
                forest_shaded_by(all_children, materials.entries()),
                k <= c,
                children@ == all_children.subrange(k as int, c as int),
                forest_recorded(all_children.take(k as int), child_records@, materials.entries()),
            decreases c - k,
        {
            let child = children.remove(0);
            proof {
                assert(child == all_children[k as int]);
                lemma_forest_shaded_by_at(all_children, materials.entries(), k as int);
                assert(decreases_to!(m0 => m0.children));
                assert(decreases_to!(m0.children => m0.children@));
                assert(decreases_to!(m0.children@ => m0.children@[k as int]));
            }
            let record = child.to_serde(materials);
            let ghost before = child_records@;
            child_records.push(record);
            proof {
                assert(children@ =~= all_children.subrange(k + 1, c as int));
                let t = all_children.take(k + 1);
                assert(t.drop_last() =~= all_children.take(k as int));
                assert(child_records@.drop_last() =~= before);
            }
            k += 1;
        }
        proof {
            assert(all_children.take(c as int) =~= all_children);
        }
        ModelSerde { id, meshes: mesh_records, children: child_records, name, transform }
    }
}

/// What `forest_shaded_by` says of each model.
proof fn lemma_forest_shaded_by_at<P, L, T, F>(
    ms: Seq<Model<MeshData<P>, L, T>>,
    mats: Map<DefaultKey, Material<F>>,
    i: int,
)
    requires
        forest_shaded_by(ms, mats),
        0 <= i < ms.len(),
    ensures
        model_shaded_by(ms[i], mats),
    decreases ms.len(),
{
    if i < ms.len() - 1 {
        lemma_forest_shaded_by_at(ms.drop_last(), mats, i);
    }
}

/// What `records_materials_known` says of each record.
proof fn lemma_records_materials_known_at<P, T, F>(
    rs: Seq<ModelSerde<P, T>>,
    mats: Map<DefaultKey, Material<F>>,
    i: int,
)
    requires
        records_materials_known(rs, mats),
        0 <= i < rs.len(),
    ensures
        record_materials_known(rs[i], mats),
    decreases rs.len(),
{
    if i < rs.len() - 1 {
        lemma_records_materials_known_at(rs.drop_last(), mats, i);
    }
}

/// The model the world-file record `r` describes, its meshes shaded with
/// the materials of `materials` that have the shader ids the record names:
/// the record's ids, names and transforms, every mesh due for an upload and
/// no lights (see `model_recorded` and `model_loaded`). None when a mesh
/// record names a shader id that no material has.
#[verifier::loop_isolation(false)]
pub fn model_from_serde<P, L, T, F>(r: ModelSerde<P, T>, materials: &MaterialManager<F>) -> (o: Option<
    Model<MeshData<P>, L, T>,
>)
    requires
        materials.wf(),
    ensures
        o is Some <==> record_materials_known(r, materials.entries()),
        o matches Some(m) ==> model_recorded(m, r, materials.entries()) && model_loaded(m),
    decreases r,
{
    let ghost r0 = r;
    let ghost mats = materials.entries();
    let ModelSerde { id, meshes, children, name, transform } = r;
    let mut records = meshes;
    let ghost all_records = records@;
    let mut meshes: Vec<Mesh<MeshData<P>>> = Vec::new();
    let n = records.len();
    let mut i: usize = 0;
    while i < n
        invariant
            n == all_records.len(),
            all_records == r0.meshes@,
            i <= n,
            records@ == all_records.subrange(i as int, n as int),
            meshes_recorded(meshes@, all_records.take(i as int), mats),
            forall|j: int| 0 <= j < i ==> (#[trigger] meshes@[j]).dirty,
            forall|j: int| 0 <= j < i ==> shader_known(mats, (#[trigger] all_records[j]).material),
        decreases n - i,
    {
        let record = records.remove(0);
        proof {
            assert(record == all_records[i as int]);
            assert(records@ =~= all_records.subrange(i + 1, n as int));
        }
        let key = match materials.key_of_shader(record.material) {
            Some(k) => k,
            None => {
                return None;
            },
        };
        let ghost before = meshes@;
        meshes.push(Mesh { dirty: true, id: record.id, data: MeshData { material: key, geometry: record.geometry } });
        proof {
            let t = all_records.take(i + 1);
            assert forall|j: int| 0 <= j < meshes@.len() implies {
                &&& (#[trigger] t[j]).id == meshes@[j].id
                &&& t[j].geometry == meshes@[j].data.geometry
                &&& mats.contains_key(meshes@[j].data.material)
                &&& t[j].material == mats[meshes@[j].data.material].spec_shader_id()
            } by {
                if j < i {
                    assert(t[j] == all_records.take(i as int)[j]);
                    assert(meshes@[j] == before[j]);
                }
            }
        }
        i += 1;
    }
    proof {
        assert(all_records.take(n as int) =~= all_records);
    }
    let mut rest = children;
    let ghost all_children = rest@;
    let mut models: Vec<Model<MeshData<P>, L, T>> = Vec::new();
    let c = rest.len();
    let mut k: usize = 0;
    while k < c
        invariant
            c == all_children.len(),
            all_children == r0.children@,
            k <= c,
            rest@ == all_children.subrange(k as int, c as int),
            forest_recorded(models@, all_children.take(k as int), mats),
            forest_loaded(models@),
            records_materials_known(all_children.take(k as int), mats),
        decreases c - k,
    {
        let child = rest.remove(0);
        proof {
            assert(child == all_children[k as int]);
            assert(rest@ =~= all_children.subrange(k + 1, c as int));
            assert(decreases_to!(r0 => r0.children));
            assert(decreases_to!(r0.children => r0.children@));
            assert(decreases_to!(r0.children@ => r0.children@[k as int]));
        }
        let model = match model_from_serde(child, materials) {
            Some(m) => m,
            None => {
                proof {
                    if records_materials_known(all_children, mats) {
                        lemma_records_materials_known_at(all_children, mats, k as int);
                    }
                }
                return None;
            },
        };
        let ghost before = models@;
        models.push(model);
        proof {
            let t = all_children.take(k + 1);
            assert(t.drop_last() =~= all_children.take(k as int));
            assert(models@.drop_last() =~= before);
        }
        k += 1;
    }
    proof {
        assert(all_children.take(c as int) =~= all_children);
        assert(records_materials_known(r0.children@, mats));
    }
    Some(Model { id, meshes, children: models, name, transform, light: None })
}

/// `a` and `b` agree in everything a world file keeps: ids, names,
/// transforms, their meshes' ids and data, and, likewise, their children.
pub open spec fn same_content<P, L, T>(a: Model<MeshData<P>, L, T>, b: Model<MeshData<P>, L, T>) -> bool
    decreases a,
{
    &&& a.id == b.id
    &&& a.name == b.name
    &&& a.transform == b.transform
    &&& a.meshes@.len() == b.meshes@.len()
    &&& forall|j: int|
        0 <= j < a.meshes@.len() ==> (#[trigger] a.meshes@[j]).id == b.meshes@[j].id && a.meshes@[j].data
            == b.meshes@[j].data
    &&& forest_same_content(a.children@, b.children@)
}

/// The models `a` and `b` agree one by one (see `same_content`).
pub open spec fn forest_same_content<P, L, T>(a: Seq<Model<MeshData<P>, L, T>>, b: Seq<Model<MeshData<P>, L, T>>) -> bool
    decreases a,
{
    &&& a.len() == b.len()
    &&& a.len() > 0 ==> forest_same_content(a.drop_last(), b.drop_last()) && same_content(a.last(), b.last())
}

/// A record pins down what it records: two models recorded by one record,
/// with the materials of a well-formed manager, agree in everything a world
/// file keeps. So a model read back from the record of a model is that
/// model, but for its light and what is due for an upload.
pub proof fn lemma_model_round_trip<P, L, T, F>(
    m: Model<MeshData<P>, L, T>,
    back: Model<MeshData<P>, L, T>,
    r: ModelSerde<P, T>,
    materials: MaterialManager<F>,
)
    requires
        materials.wf(),
        model_recorded(m, r, materials.entries()),
        model_recorded(back, r, materials.entries()),
    ensures
        same_content(m, back),
    decreases m,
{
    let mats = materials.entries();
    materials.lemma_shader_ids_distinct();
    assert forall|j: int| 0 <= j < m.meshes@.len() implies (#[trigger] m.meshes@[j]).id == back.meshes@[j].id
        && m.meshes@[j].data == back.meshes@[j].data by {
        assert(r.meshes@[j].material == mats[m.meshes@[j].data.material].spec_shader_id());
        assert(r.meshes@[j].material == mats[back.meshes@[j].data.material].spec_shader_id());
        assert(m.meshes@[j].data.material == back.meshes@[j].data.material);
    }
    assert(decreases_to!(m => m.children));
    assert(decreases_to!(m.children => m.children@));
    lemma_forest_round_trip(m.children@, back.children@, r.children@, materials);
}

/// `lemma_model_round_trip` for the models `ms` and `back` recorded by the
/// records `rs`.
pub proof fn lemma_forest_round_trip<P, L, T, F>(
    ms: Seq<Model<MeshData<P>, L, T>>,
    back: Seq<Model<MeshData<P>, L, T>>,
    rs: Seq<ModelSerde<P, T>>,
    materials: MaterialManager<F>,
)
    requires
        materials.wf(),
        forest_recorded(ms, rs, materials.entries()),
        forest_recorded(back, rs, materials.entries()),
    ensures
        forest_same_content(ms, back),
    decreases ms,
{
    if ms.len() > 0 {
        lemma_forest_round_trip(ms.drop_last(), back.drop_last(), rs.drop_last(), materials);
        lemma_model_round_trip(ms.last(), back.last(), rs.last(), materials);
    }
}

/// The number of meshes of the root records `rs`.
pub open spec fn root_mesh_count<P, T>(rs: Seq<ModelSerde<P, T>>) -> nat
    decreases rs.len(),
{
    if rs.len() == 0 {
        0
    } else {
        root_mesh_count(rs.drop_last()) + rs.last().meshes@.len()
    }
}

/// Recorded roots have as many meshes as their records.
proof fn lemma_root_mesh_count<P, L, T, F>(
    ms: Seq<Model<MeshData<P>, L, T>>,
    rs: Seq<ModelSerde<P, T>>,
    mats: Map<DefaultKey, Material<F>>,
)
    requires
        forest_recorded(ms, rs, mats),
    ensures
        top_meshes(ms).len() == root_mesh_count(rs),
    decreases ms.len(),
{
    if ms.len() > 0 {
        lemma_root_mesh_count(ms.drop_last(), rs.drop_last(), mats);
        assert(model_recorded(ms.last(), rs.last(), mats));
        assert(meshes_recorded(ms.last().meshes@, rs.last().meshes@, mats));
    }
}

/// Models read from a world file carry no lights.
proof fn lemma_loaded_no_lights<P, L, T>(ms: Seq<Model<MeshData<P>, L, T>>)
    requires
        forest_loaded(ms),
    ensures
        light_count(ms) == 0,
    decreases ms.len(),
{
    if ms.len() > 0 {
        lemma_loaded_no_lights(ms.drop_last());
        assert(model_loaded(ms.last()));
    }
}

impl<P, L, T> Scene<MeshData<P>, L, T> {
    /// The record of this scene for a world file: its id, name and the
    /// records of its roots (see `model_recorded`).
    #[verifier::loop_isolation(false)]
    pub fn to_serde<F>(self, materials: &MaterialManager<F>) -> (r: SceneSerde<P, T>)
        requires
            materials.wf(),
            forest_shaded_by(self.models@, materials.entries()),
        ensures
            r.id == self.id,
            r.name == self.name,
            forest_recorded(self.models@, r.models@, materials.entries()),
    {
        let ghost s0 = self;
        let mut models = self.models;
        let ghost all = models@;
        let mut records: Vec<ModelSerde<P, T>> = Vec::new();
        let n = models.len();
        let mut k: usize = 0;
        while k < n
            invariant
                n == all.len(),
                k <= n,
                models@ == all.subrange(k as int, n as int),
                forest_recorded(all.take(k as int), records@, materials.entries()),
            decreases n - k,
        {
            let model = models.remove(0);
            proof {
                assert(model == all[k as int]);
                assert(models@ =~= all.subrange(k + 1, n as int));
                lemma_forest_shaded_by_at(all, materials.entries(), k as int);
            }
            let record = model.to_serde(materials);
            let ghost before = records@;
            records.push(record);
            proof {
                assert(all.take(k + 1).drop_last() =~= all.take(k as int));
                assert(records@.drop_last() =~= before);
            }
            k += 1;
        }
        proof {
            assert(all.take(n as int) =~= all);
        }
        SceneSerde { id: self.id, models: records, name: self.name }
    }
}

/// Whether the records of a scene can be read with the materials `mats`
/// into fresh mesh and light arrays of elements of the given sizes.
pub open spec fn scene_readable<P, T, F>(
    r: SceneSerde<P, T>,
    mats: Map<DefaultKey, Material<F>>,
    mesh_info_size: nat,
    light_info_size: nat,
) -> bool {
    &&& records_materials_known(r.models@, mats)
    &&& PREALLOC_COUNT * mesh_info_size <= u64::MAX
    &&& PREALLOC_COUNT * light_info_size <= u64::MAX
    &&& can_push_each(DynamicBufferArray::fresh(None, mesh_info_size), root_mesh_count(r.models@))
}

/// `s` is the scene read from the record `r` with the materials `mats`,
/// and `ops` the uploads it asked for: the record's id, name and roots
/// (see `model_recorded` and `model_loaded`), with fresh mesh and light
/// arrays that received the infos of the roots' meshes (see `Scene::from`).
pub open spec fn scene_read<P, L, T, F>(
    r: SceneSerde<P, T>,
    s: Scene<MeshData<P>, L, T>,
    ops: Seq<BufferWrite>,
    mats: Map<DefaultKey, Material<F>>,
    mesh_info_size: nat,
    light_info_size: nat,
) -> bool {
    &&& s.id == r.id
    &&& s.name == r.name
    &&& forest_recorded(s.models@, r.models@, mats)
    &&& forest_loaded(s.models@)
    &&& s.wf()
    &&& s.mesh_buffer.array() == pushes(
        DynamicBufferArray::fresh(s.mesh_buffer.array().label(), mesh_info_size),
        root_mesh_count(r.models@),
    )
    &&& s.mesh_buffer.index_map() == keys_pushed(Map::empty(), top_meshes(s.models@), 0)
    &&& s.light_buffer == DynamicBufferArray::fresh(s.light_buffer.label(), light_info_size)
    &&& ops == forest_push_ops(
        DynamicBufferArray::fresh(s.mesh_buffer.array().label(), mesh_info_size),
        DynamicBufferArray::fresh(s.light_buffer.label(), light_info_size),
        s.models@,
    )
}

/// The scene the world-file record `r` describes (see `scene_read`), read
/// with the materials of `materials` into mesh and light arrays of elements
/// of the given sizes, and the uploads it asks for. None exactly when the
/// record cannot be read (see `scene_readable`).
#[verifier::loop_isolation(false)]
pub fn scene_from_serde<P, L, T, F>(
    r: SceneSerde<P, T>,
    materials: &MaterialManager<F>,
    mesh_info_size: u64,
    light_info_size: u64,
) -> (o: Option<(Scene<MeshData<P>, L, T>, Vec<BufferWrite>)>)
    requires
        materials.wf(),
    ensures
        o is Some <==> scene_readable(r, materials.entries(), mesh_info_size as nat, light_info_size as nat),
        o matches Some(x) ==> scene_read(
            r,
            x.0,
            x.1@,
            materials.entries(),
            mesh_info_size as nat,
            light_info_size as nat,
        ),
{
    let ghost r0 = r;
    let ghost mats = materials.entries();
    if mesh_info_size.checked_mul(PREALLOC_COUNT).is_none() || light_info_size.checked_mul(PREALLOC_COUNT).is_none() {
        return None;
    }
    let SceneSerde { id, models: records, name } = r;
    let mut records = records;
    let ghost all = records@;
    let mut models: Vec<Model<MeshData<P>, L, T>> = Vec::new();
    let n = records.len();
    let mut k: usize = 0;
    while k < n
        invariant
            materials.wf(),
            mats == materials.entries(),
            n == all.len(),
            k <= n,
            records@ == all.subrange(k as int, n as int),
            forest_recorded(models@, all.take(k as int), mats),
            forest_loaded(models@),
            records_materials_known(all.take(k as int), mats),
        decreases n - k,
    {
        let record = records.remove(0);
        proof {
            assert(record == all[k as int]);
            assert(records@ =~= all.subrange(k + 1, n as int));
        }
        let model = match model_from_serde(record, materials) {
            Some(m) => m,
            None => {
                proof {
                    if records_materials_known(all, mats) {
                        lemma_records_materials_known_at(all, mats, k as int);
                    }
                }
                return None;
            },
        };
        let ghost before = models@;
        models.push(model);
        proof {
            assert(all.take(k + 1).drop_last() =~= all.take(k as int));
            assert(models@.drop_last() =~= before);
        }
        k += 1;
    }
    proof {
        assert(all.take(n as int) =~= all);
        lemma_root_mesh_count(models@, all, mats);
        lemma_loaded_no_lights(models@);
        DynamicBufferArray::lemma_fresh(None, None, mesh_info_size as nat);
    }
    let probe = DynamicBufferArray::new(None, mesh_info_size);
    let count = root_meshes(&models).len();
    if !probe.can_push_each_exec(count) {
        return None;
    }
    let (mut scene, ops) = Scene::from(models, name, mesh_info_size, light_info_size);
    proof {
        lemma_pushes(DynamicBufferArray::fresh(scene.light_buffer.label(), light_info_size as nat), 0);
    }
    scene.id = id;
    Some((scene, ops))
}

/// A material as written to a world file: its shader id, its name, the ids
/// of its textures (0 for a texture it does not name) and its factors `F`.
#[derive(Debug)]
pub struct MaterialSerde<F> {
    pub id: u32,
    pub name: Option<String>,
    pub albedo_texture: u32,
    pub metallic_roughness_texture: u32,
    pub normal_texture: u32,
    pub occlusion_texture: u32,
    pub emissive_texture: u32,
    pub factors: F,
}

/// The materials of a world file, in order.
#[derive(Debug)]
pub struct MaterialManagerSerde<F> {
    pub materials: Vec<MaterialSerde<F>>,
}

/// The number a world file writes for the texture `key` of a material: the
/// id of the texture, 0 when the material names none or the texture has no
/// id.
pub open spec fn texture_number<D>(texs: Map<DefaultKey, Texture<D>>, key: Option<DefaultKey>) -> u32 {
    match key {
        Some(k) => match texs[k].id {
            Some(i) => i,
            None => 0,
        },
        None => 0,
    }
}

/// `r` records the material `m`, its textures numbered by `texs`.
pub open spec fn material_recorded<F, D>(m: Material<F>, r: MaterialSerde<F>, texs: Map<DefaultKey, Texture<D>>) -> bool {
    match m {
        Material::Pbr(p) => {
            &&& r.id == p.shader_id
            &&& r.name == p.name
            &&& r.albedo_texture == texture_number(texs, p.albedo_texture)
            &&& r.metallic_roughness_texture == texture_number(texs, p.metallic_roughness_texture)
            &&& r.normal_texture == texture_number(texs, p.normal_texture)
            &&& r.occlusion_texture == texture_number(texs, p.occlusion_texture)
            &&& r.emissive_texture == texture_number(texs, p.emissive_texture)
            &&& r.factors == p.factors
        },
    }
}

/// Some texture of `texs` has the id `id`.
pub open spec fn texture_id_known<D>(texs: Map<DefaultKey, Texture<D>>, id: u32) -> bool {
    exists|k: DefaultKey| #[trigger] texs.contains_key(k) && texs[k].id == Some(id)
}

/// `key` is the key of a texture of `texs` with the id `id`.
pub open spec fn texture_read<D>(texs: Map<DefaultKey, Texture<D>>, key: Option<DefaultKey>, id: u32) -> bool {
    key matches Some(k) && texs.contains_key(k) && texs[k].id == Some(id)
}

/// Every texture id the record `r` names is the id of a texture of `texs`.
pub open spec fn material_readable<F, D>(r: MaterialSerde<F>, texs: Map<DefaultKey, Texture<D>>) -> bool {
    &&& texture_id_known(texs, r.albedo_texture)
    &&& texture_id_known(texs, r.metallic_roughness_texture)
    &&& texture_id_known(texs, r.normal_texture)
    &&& texture_id_known(texs, r.occlusion_texture)
    &&& texture_id_known(texs, r.emissive_texture)
}

/// `m` is the material read from the record `r`: its name and factors,
/// each texture the one of `texs` with the id the record names, due for an
/// upload.
pub open spec fn material_read<F, D>(r: MaterialSerde<F>, m: PbrMaterial<F>, texs: Map<DefaultKey, Texture<D>>) -> bool {
    &&& m.dirty
    &&& m.name == r.name
    &&& m.factors == r.factors
    &&& texture_read(texs, m.albedo_texture, r.albedo_texture)
    &&& texture_read(texs, m.metallic_roughness_texture, r.metallic_roughness_texture)
    &&& texture_read(texs, m.normal_texture, r.normal_texture)
    &&& texture_read(texs, m.occlusion_texture, r.occlusion_texture)
    &&& texture_read(texs, m.emissive_texture, r.emissive_texture)
}

/// Writing a material and reading its record back puts the same texture in
/// every slot, as long as the textures carry distinct ids: each slot that
/// names a texture with an id is read back as that very texture, and the
/// name and factors come back unchanged.
pub proof fn lemma_material_round_trip<F, D>(
    p: PbrMaterial<F>,
    r: MaterialSerde<F>,
    back: PbrMaterial<F>,
    texs: Map<DefaultKey, Texture<D>>,
)
    requires
        material_recorded(Material::Pbr(p), r, texs),
        material_read(r, back, texs),
        forall|k1: DefaultKey, k2: DefaultKey|
            #[trigger] texs.contains_key(k1) && #[trigger] texs.contains_key(k2) && texs[k1].id is Some && texs[k1].id
                == texs[k2].id ==> k1 == k2,
    ensures
        (p.albedo_texture matches Some(k) && texs.contains_key(k) && texs[k].id is Some) ==> back.albedo_texture
            == p.albedo_texture,
        (p.metallic_roughness_texture matches Some(k) && texs.contains_key(k) && texs[k].id is Some)
            ==> back.metallic_roughness_texture == p.metallic_roughness_texture,
        (p.normal_texture matches Some(k) && texs.contains_key(k) && texs[k].id is Some) ==> back.normal_texture
            == p.normal_texture,
        (p.occlusion_texture matches Some(k) && texs.contains_key(k) && texs[k].id is Some) ==> back.occlusion_texture
            == p.occlusion_texture,
        (p.emissive_texture matches Some(k) && texs.contains_key(k) && texs[k].id is Some) ==> back.emissive_texture
            == p.emissive_texture,
        back.name == p.name,
        back.factors == p.factors,
        back.dirty,
{
}

/// The number of the texture `key` names (see `texture_number`).
fn texture_number_of<D>(textures: &TextureManager<D>, key: &Option<DefaultKey>) -> (r: u32)
    requires
        textures.wf(),
        *key matches Some(k) ==> textures.entries().contains_key(k),
    ensures
        r == texture_number(textures.entries(), *key),
{
    match key {
        Some(k) => match textures.get_texture(k).id {
            Some(i) => i,
            None => 0,
        },
        None => 0,
    }
}

impl<F: Copy> Material<F> {
    /// The record of this material for a world file (see
    /// `material_recorded`); every texture it names is one of `textures`.
    pub fn to_serde<D>(&self, textures: &TextureManager<D>) -> (r: MaterialSerde<F>)
        requires
            textures.wf(),
            match *self {
                Material::Pbr(p) => textures_known(p, *textures),
            },
        ensures
            material_recorded(*self, r, textures.entries()),
            match *self {
                Material::Pbr(p) => {
                    &&& r.id == p.shader_id
                    &&& r.name == p.name
                    &&& r.factors == p.factors
                    &&& r.albedo_texture == texture_number(textures.entries(), p.albedo_texture)
                    &&& r.metallic_roughness_texture == texture_number(textures.entries(), p.metallic_roughness_texture)
                    &&& r.normal_texture == texture_number(textures.entries(), p.normal_texture)
                    &&& r.occlusion_texture == texture_number(textures.entries(), p.occlusion_texture)
                    &&& r.emissive_texture == texture_number(textures.entries(), p.emissive_texture)
                },
            },
    {
        match self {
            Material::Pbr(p) => {
                proof {
                    assert(crate::material::texture_slots(*p)[0].0 == p.albedo_texture);
                    assert(crate::material::texture_slots(*p)[1].0 == p.normal_texture);
                    assert(crate::material::texture_slots(*p)[2].0 == p.metallic_roughness_texture);
                    assert(crate::material::texture_slots(*p)[3].0 == p.occlusion_texture);
                    assert(crate::material::texture_slots(*p)[4].0 == p.emissive_texture);
                }
                MaterialSerde {
                    id: p.shader_id,
                    name: p.name.clone(),
                    albedo_texture: texture_number_of(textures, &p.albedo_texture),
                    metallic_roughness_texture: texture_number_of(textures, &p.metallic_roughness_texture),
                    normal_texture: texture_number_of(textures, &p.normal_texture),
                    occlusion_texture: texture_number_of(textures, &p.occlusion_texture),
                    emissive_texture: texture_number_of(textures, &p.emissive_texture),
                    factors: p.factors,
                }
            },
        }
    }
}

/// The material the world-file record `r` describes (see `material_read`),
/// its textures looked up by id in `textures`. None exactly when a texture
/// id it names is not the id of a texture there.
pub fn material_from_serde<F, D>(r: MaterialSerde<F>, textures: &TextureManager<D>) -> (o: Option<PbrMaterial<F>>)
    requires
        textures.wf(),
    ensures
        o is Some <==> material_readable(r, textures.entries()),
        o matches Some(m) ==> material_read(r, m, textures.entries()),
{
    let albedo = textures.key_of_id(r.albedo_texture);
    let metallic_roughness = textures.key_of_id(r.metallic_roughness_texture);
    let normal = textures.key_of_id(r.normal_texture);
    let occlusion = textures.key_of_id(r.occlusion_texture);
    let emissive = textures.key_of_id(r.emissive_texture);
    if albedo.is_none() || metallic_roughness.is_none() || normal.is_none() || occlusion.is_none() || emissive.is_none() {
        return None;
    }
    Some(PbrMaterial {
        dirty: true,
        shader_id: r.id,
        name: r.name,
        albedo_texture: albedo,
        metallic_roughness_texture: metallic_roughness,
        normal_texture: normal,
        occlusion_texture: occlusion,
        emissive_texture: emissive,
        factors: r.factors,
    })
}

/// Whether the material records `rs` of a world file can be read with the
/// textures `texs` into a material buffer of elements of `size` bytes: the
/// first record is the default material, every record carries its
/// position as shader id, every later one names known textures, and the
/// buffer has room for them all.
pub open spec fn materials_readable<F, D>(rs: Seq<MaterialSerde<F>>, texs: Map<DefaultKey, Texture<D>>, size: nat) -> bool {
    &&& 0 < rs.len() < u32::MAX
    &&& PREALLOC_COUNT * size <= u64::MAX
    &&& forall|i: int| 0 <= i < rs.len() ==> (#[trigger] rs[i]).id == i
    &&& forall|i: int| 1 <= i < rs.len() ==> material_readable(#[trigger] rs[i], texs)
    &&& can_push_each(DynamicBufferArray::fresh(None, size).pushed(1), (rs.len() - 1) as nat)
}

impl<F> MaterialManager<F> {
    /// A manager read from the material records of a world file, with the
    /// textures already read: the first record is the default material,
    /// made with its factors (see `new`); every later record is read (see
    /// `material_read`) and added in order, under the shader id it carries.
    /// Also returns the uploads of the materials' infos. None exactly when
    /// the records cannot be read (see `materials_readable`).
    #[verifier::loop_isolation(false)]
    pub fn from_serde<D>(records: Vec<MaterialSerde<F>>, textures: &TextureManager<D>, material_info_size: u64) -> (o:
        Option<(Self, Vec<PushPlan>)>)
        requires
            textures.wf(),
        ensures
            o is Some <==> materials_readable(records@, textures.entries(), material_info_size as nat),
            o matches Some(x) ==> {
                &&& x.0.wf()
                &&& x.0.in_order().len() == records@.len()
                &&& x.1@.len() == records@.len()
                &&& x.0.in_order()[0] matches Material::Pbr(d) && d.factors == records@[0].factors && d.shader_id == 0
                &&& forall|i: int|
                    1 <= i < records@.len() ==> (#[trigger] x.0.in_order()[i] matches Material::Pbr(m) && m.shader_id == i
                        && material_read(records@[i], m, textures.entries()))
            },
    {
        let ghost all = records@;
        let ghost texs = textures.entries();
        let n = records.len();
        if n == 0 || n >= u32::MAX as usize || material_info_size.checked_mul(PREALLOC_COUNT).is_none() {
            return None;
        }
        let mut i: usize = 0;
        while i < n
            invariant
                n == all.len(),
                i <= n,
                forall|j: int| 0 <= j < i ==> (#[trigger] all[j]).id == j,
            decreases n - i,
        {
            if records[i].id as usize != i {
                return None;
            }
            i += 1;
        }
        let mut records = records;
        let first = records.remove(0);
        let (mut manager, plan) = MaterialManager::new(first.factors, material_info_size);
        let ghost b0 = manager.buffer_state();
        proof {
            let f = DynamicBufferArray::fresh(None, material_info_size as nat);
            let g = DynamicBufferArray::fresh(manager.buffer_state().label(), material_info_size as nat);
            DynamicBufferArray::lemma_fresh(None, manager.buffer_state().label(), material_info_size as nat);
            f.lemma_same_shape(g, 1);
            assert(pushes(f, 0) == f);
            assert(pushes(g, 0) == g);
            assert(pushes(f, 1) == f.pushed(1));
            assert(pushes(g, 1) == g.pushed(1));
            f.pushed(1).lemma_same_shape(g.pushed(1), (n - 1) as nat);
        }
        if !manager.can_add_each(n - 1) {
            return None;
        }
        let mut plans: Vec<PushPlan> = Vec::new();
        plans.push(plan);
        let mut k: usize = 1;
        while k < n
            invariant
                n == all.len(),
                1 <= k <= n,
                records@ == all.subrange(k as int, n as int),
                manager.wf(),
                manager.in_order().len() == k,
                plans@.len() == k,
                manager.buffer_state() == pushes(b0, (k - 1) as nat),
                can_push_each(b0, (n - 1) as nat),
                manager.in_order()[0] matches Material::Pbr(d) && d.factors == all[0].factors && d.shader_id == 0,
                forall|j: int| 1 <= j < k ==> material_readable(#[trigger] all[j], texs),
                forall|j: int|
                    1 <= j < k ==> (#[trigger] manager.in_order()[j] matches Material::Pbr(m) && m.shader_id == j
                        && material_read(all[j], m, texs)),
            decreases n - k,
        {
            let record = records.remove(0);
            proof {
                assert(record == all[k as int]);
                assert(records@ =~= all.subrange(k + 1, n as int));
                lemma_can_push_each_prefix(b0, k as nat, (n - 1) as nat);
            }
            let material = match material_from_serde(record, textures) {
                Some(m) => m,
                None => {
                    return None;
                },
            };
            let ghost before = manager.in_order();
            let (_, plan) = manager.add_material(Material::Pbr(material));
            plans.push(plan);
            proof {
                assert(manager.in_order()[k as int] == Material::Pbr(material).with_shader_id(k as u32));
                assert forall|j: int| 1 <= j < k + 1 implies (#[trigger] manager.in_order()[j] matches Material::Pbr(m)
                    && m.shader_id == j && material_read(all[j], m, texs)) by {
                    if j < k {
                        assert(manager.in_order()[j] == before[j]);
                    }
                }
                assert(manager.in_order()[0] == before[0]);
            }
            k += 1;
        }
        Some((manager, plans))
    }
}

/// Whether every texture the material names is held by `textures` (what
/// `Material::to_serde` requires).
pub fn material_textures_held<F, D>(m: &Material<F>, textures: &TextureManager<D>) -> (r: bool)
    ensures
        r == match *m {
            Material::Pbr(p) => textures_known(p, *textures),
        },
{
    match m {
        Material::Pbr(p) => {
            proof {
                assert(crate::material::texture_slots(*p)[0].0 == p.albedo_texture);
                assert(crate::material::texture_slots(*p)[1].0 == p.normal_texture);
                assert(crate::material::texture_slots(*p)[2].0 == p.metallic_roughness_texture);
                assert(crate::material::texture_slots(*p)[3].0 == p.occlusion_texture);
                assert(crate::material::texture_slots(*p)[4].0 == p.emissive_texture);
            }
            held(textures, &p.albedo_texture) && held(textures, &p.normal_texture) && held(
                textures,
                &p.metallic_roughness_texture,
            ) && held(textures, &p.occlusion_texture) && held(textures, &p.emissive_texture)
        },
    }
}

/// Whether the texture `key` names, if any, is held by `textures`.
fn held<D>(textures: &TextureManager<D>, key: &Option<DefaultKey>) -> (r: bool)
    ensures
        r == (*key matches Some(k) ==> textures.entries().contains_key(k)),
{
    match key {
        Some(k) => textures.contains(k),
        None => true,
    }
}

/// Whether every mesh of the model, and of its descendants, is shaded with
/// a material of `materials` (see `model_shaded_by`).
pub fn model_shaded<P, L, T, F>(m: &Model<MeshData<P>, L, T>, materials: &MaterialManager<F>) -> (r: bool)
    requires
        materials.wf(),
    ensures
        r == model_shaded_by(*m, materials.entries()),
    decreases *m,
{
    let n = m.meshes.len();
    let mut i: usize = 0;
    while i < n
        invariant
            n == m.meshes@.len(),
            i <= n,
            forall|j: int| 0 <= j < i ==> materials.entries().contains_key(#[trigger] m.meshes@[j].data.material),
        decreases n - i,
    {
        if !materials.contains(&m.meshes[i].data.material) {
            return false;
        }
        i += 1;
    }
    proof {
        assert(decreases_to!(*m => m.children));
        assert(decreases_to!(m.children => m.children@));
    }
    forest_shaded(&m.children, materials)
}

/// Whether every mesh of the models `ms`, and of their descendants, is
/// shaded with a material of `materials` (see `forest_shaded_by`).
pub fn forest_shaded<P, L, T, F>(ms: &Vec<Model<MeshData<P>, L, T>>, materials: &MaterialManager<F>) -> (r: bool)
    requires
        materials.wf(),
    ensures
        r == forest_shaded_by(ms@, materials.entries()),
    decreases ms@,
{
    let ghost all = ms@;
    let n = ms.len();
    let mut i: usize = 0;
    while i < n
        invariant
            all == ms@,
            n == all.len(),
            i <= n,
            materials.wf(),
            forest_shaded_by(all.take(i as int), materials.entries()),
        decreases n - i,
    {
        proof {
            assert(decreases_to!(all => all[i as int]));
            let t = all.take(i + 1);
            assert(t.drop_last() =~= all.take(i as int));
            assert(t.last() == all[i as int]);
        }
        if !model_shaded(&ms[i], materials) {
            proof {
                if forest_shaded_by(all, materials.entries()) {
                    lemma_forest_shaded_by_at(all, materials.entries(), i as int);
                }
            }
            return false;
        }
        i += 1;
    }
    proof {
        assert(all.take(n as int) =~= all);
    }
    true
}

} // verus!
