use crate::buffers::{can_push_each, lemma_can_push_each_prefix, lemma_pushes, pushes, DynamicBufferArray, PushPlan, PREALLOC_COUNT};
use crate::material::{Material, MaterialManager, PbrMaterial};
use crate::scene::light::PointLight;
use crate::scene::mesh::Mesh;
use crate::scene::model::Model;
use crate::scene::{forest_push_ops, keys_pushed, light_count, root_light_count, root_meshes, top_meshes, BufferWrite, Scene};
use crate::texture::{numbered, Texture, TextureManager};
use slotmap::DefaultKey;
use std::collections::HashMap;
use vstd::prelude::*;

verus! {

broadcast use vstd::std_specs::hash::group_hash_axioms;

/// What a mesh of an imported model draws: its geometry `P` (GPU buffers
/// and transforms, built by the renderer) and the material it is shaded with.
#[derive(Debug)]
pub struct MeshData<P> {
    pub material: DefaultKey,
    pub geometry: P,
}

/// A primitive of a glTF mesh: the index of its glTF material, if it names
/// one, and its geometry.
#[derive(Debug)]
pub struct PrimitiveDesc<P> {
    pub material: Option<usize>,
    pub geometry: P,
}

/// A punctual light of a glTF node: the glTF index of the light, which is
/// also its slot in the scene's light buffer, and its colour, intensity,
/// range and transform `LD`.
#[derive(Debug)]
pub struct LightDesc<LD> {
    pub index: usize,
    pub data: LD,
}

/// A node of a glTF scene with what the importer reads from it.
#[derive(Debug)]
pub struct NodeDesc<P, LD, T> {
    pub name: Option<String>,
    pub transform: T,
    pub primitives: Vec<PrimitiveDesc<P>>,
    pub light: Option<LightDesc<LD>>,
    pub children: Vec<NodeDesc<P, LD, T>>,
}

/// A glTF material with what the importer reads from it: its index (none
/// for the implicit default material), its name, the glTF indices of its
/// textures and its colour factors `F`.
#[derive(Debug)]
pub struct MaterialDesc<F> {
    pub index: Option<usize>,
    pub name: Option<String>,
    pub albedo: Option<usize>,
    pub metallic_roughness: Option<usize>,
    pub normal: Option<usize>,
    pub occlusion: Option<usize>,
    pub emissive: Option<usize>,
    pub factors: F,
}

/// The key that glTF texture index `i` was given, if any.
pub open spec fn key_of(textures: Map<usize, DefaultKey>, i: Option<usize>) -> Option<DefaultKey> {
    match i {
        Some(i) => Some(textures[i]),
        None => None,
    }
}

/// Every texture `i` refers to was imported.
pub open spec fn known(textures: Map<usize, DefaultKey>, i: Option<usize>) -> bool {
    i matches Some(i) ==> textures.contains_key(i)
}

/// Every texture of the material was imported.
pub open spec fn textures_imported<F>(d: MaterialDesc<F>, textures: Map<usize, DefaultKey>) -> bool {
    &&& known(textures, d.albedo)
    &&& known(textures, d.metallic_roughness)
    &&& known(textures, d.normal)
    &&& known(textures, d.occlusion)
    &&& known(textures, d.emissive)
}

/// The material made of `d`, its glTF texture indices replaced by the keys
/// the textures were stored under; due for an upload.
pub open spec fn material_of<F>(d: MaterialDesc<F>, textures: Map<usize, DefaultKey>) -> PbrMaterial<F> {
    PbrMaterial {
        dirty: true,
        shader_id: 0,
        name: d.name,
        albedo_texture: key_of(textures, d.albedo),
        metallic_roughness_texture: key_of(textures, d.metallic_roughness),
        normal_texture: key_of(textures, d.normal),
        occlusion_texture: key_of(textures, d.occlusion),
        emissive_texture: key_of(textures, d.emissive),
        factors: d.factors,
    }
}

/// Each texture slot of the material made of `d` holds the key under which
/// the glTF texture that `d` names for that very slot was stored, and is
/// empty where `d` names none; the name and factors are `d`'s.
pub proof fn lemma_material_of_slots<F>(d: MaterialDesc<F>, textures: Map<usize, DefaultKey>)
    ensures
        d.albedo matches Some(i) ==> material_of(d, textures).albedo_texture == Some(textures[i]),
        d.metallic_roughness matches Some(i) ==> material_of(d, textures).metallic_roughness_texture == Some(textures[i]),
        d.normal matches Some(i) ==> material_of(d, textures).normal_texture == Some(textures[i]),
        d.occlusion matches Some(i) ==> material_of(d, textures).occlusion_texture == Some(textures[i]),
        d.emissive matches Some(i) ==> material_of(d, textures).emissive_texture == Some(textures[i]),
        d.albedo is None ==> material_of(d, textures).albedo_texture is None,
        d.metallic_roughness is None ==> material_of(d, textures).metallic_roughness_texture is None,
        d.normal is None ==> material_of(d, textures).normal_texture is None,
        d.occlusion is None ==> material_of(d, textures).occlusion_texture is None,
        d.emissive is None ==> material_of(d, textures).emissive_texture is None,
        material_of(d, textures).name == d.name,
        material_of(d, textures).factors == d.factors,
        material_of(d, textures).dirty,
{
}

fn texture_key(textures: &HashMap<usize, DefaultKey>, i: Option<usize>) -> (r: Option<DefaultKey>)
    requires
        known(textures@, i),
    ensures
        r == key_of(textures@, i),
{
    match i {
        Some(i) => Some(*textures.get(&i).unwrap()),
        None => None,
    }
}

/// The material of a glTF material description (see `material_of`).
pub fn material_from_desc<F>(desc: MaterialDesc<F>, textures: &HashMap<usize, DefaultKey>) -> (r: PbrMaterial<F>)
    requires
        textures_imported(desc, textures@),
    ensures
        r == material_of(desc, textures@),
        r.dirty,
        r.shader_id == 0,
        r.name == desc.name,
        r.factors == desc.factors,
        desc.albedo matches Some(i) ==> r.albedo_texture == Some(textures@[i]),
        desc.metallic_roughness matches Some(i) ==> r.metallic_roughness_texture == Some(textures@[i]),
        desc.normal matches Some(i) ==> r.normal_texture == Some(textures@[i]),
        desc.occlusion matches Some(i) ==> r.occlusion_texture == Some(textures@[i]),
        desc.emissive matches Some(i) ==> r.emissive_texture == Some(textures@[i]),
        desc.albedo is None ==> r.albedo_texture is None,
        desc.metallic_roughness is None ==> r.metallic_roughness_texture is None,
        desc.normal is None ==> r.normal_texture is None,
        desc.occlusion is None ==> r.occlusion_texture is None,
        desc.emissive is None ==> r.emissive_texture is None,
{
    PbrMaterial {
        dirty: true,
        shader_id: 0,
        name: desc.name,
        albedo_texture: texture_key(textures, desc.albedo),
        metallic_roughness_texture: texture_key(textures, desc.metallic_roughness),
        normal_texture: texture_key(textures, desc.normal),
        occlusion_texture: texture_key(textures, desc.occlusion),
        emissive_texture: texture_key(textures, desc.emissive),
        factors: desc.factors,
    }
}

/// Adds the textures of a glTF file, in the order of their glTF indices,
/// to `manager`. Returns the key each glTF texture index was stored under.
pub fn import_textures<D>(textures: Vec<Texture<D>>, manager: &mut TextureManager<D>) -> (r: HashMap<usize, DefaultKey>)
    requires
        old(manager).wf(),
        old(manager).in_order().len() + textures@.len() < u32::MAX - 1,
    ensures
        final(manager).wf(),
        final(manager).in_order().len() == old(manager).in_order().len() + textures@.len(),
        final(manager).in_order().take(old(manager).in_order().len() as int) == old(manager).in_order(),
        forall|i: int|
            0 <= i < textures@.len() ==> #[trigger] final(manager).in_order()[old(manager).in_order().len() + i]
                == numbered(textures@[i], (old(manager).in_order().len() + i) as nat),
        r@.dom() == Set::new(|i: usize| i < textures@.len()),
        forall|i: usize|
            #[trigger] r@.contains_key(i) ==> !old(manager).entries().contains_key(r@[i])
                && final(manager).entries()[r@[i]] == numbered(
                textures@[i as int],
                (old(manager).in_order().len() + i) as nat,
            ),
        forall|k: DefaultKey|
            #[trigger] old(manager).entries().contains_key(k) ==> final(manager).entries().contains_key(k)
                && final(manager).entries()[k] == old(manager).entries()[k],
{
    let ghost before = *manager;
    let ghost n0 = manager.in_order().len();
    let ghost all = textures@;
    let mut r: HashMap<usize, DefaultKey> = HashMap::new();
    let mut rest = textures;
    let mut i: usize = 0;
    while rest.len() > 0
        invariant
            manager.wf(),
            i + rest@.len() == all.len(),
            rest@ == all.skip(i as int),
            n0 == before.in_order().len(),
            n0 + all.len() < u32::MAX - 1,
            manager.in_order().len() == n0 + i,
            manager.in_order().take(n0 as int) == before.in_order(),
            forall|j: int| 0 <= j < i ==> #[trigger] manager.in_order()[n0 + j] == numbered(all[j], (n0 + j) as nat),
            r@.dom() == Set::new(|j: usize| j < i),
            forall|j: usize|
                #[trigger] r@.contains_key(j) ==> !before.entries().contains_key(r@[j])
                    && manager.entries().contains_key(r@[j])
                    && manager.entries()[r@[j]] == numbered(all[j as int], (n0 + j) as nat),
            forall|k: DefaultKey|
                #[trigger] before.entries().contains_key(k) ==> manager.entries().contains_key(k)
                    && manager.entries()[k] == before.entries()[k],
        decreases rest@.len(),
    {
        let t = rest.remove(0);
        proof {
            assert(t == all[i as int]);
        }
        let ghost m_before = *manager;
        let k = manager.add_texture(t);
        r.insert(i, k);
        proof {
            assert(manager.in_order().take(n0 as int) =~= before.in_order()) by {
                assert(manager.in_order() == m_before.in_order().push(numbered(t, (n0 + i) as nat)));
                assert forall|j: int| 0 <= j < n0 implies manager.in_order()[j] == before.in_order()[j] by {
                    assert(m_before.in_order().take(n0 as int)[j] == before.in_order()[j]);
                }
            }
            assert(r@.dom() =~= Set::new(|j: usize| j < i + 1));
            assert(rest@ =~= all.skip(i + 1));
        }
        i += 1;
    }
    proof {
        assert(manager.in_order().len() == n0 + all.len());
    }
    r
}

/// The glTF materials that have an index, in order (the implicit default
/// material has none).
pub open spec fn indexed<F>(ds: Seq<MaterialDesc<F>>) -> Seq<MaterialDesc<F>>
    decreases ds.len(),
{
    if ds.len() == 0 {
        Seq::empty()
    } else if ds.last().index is Some {
        indexed(ds.drop_last()).push(ds.last())
    } else {
        indexed(ds.drop_last())
    }
}

/// The material that `import_materials` stores for `d` as the material
/// with shader id `n`.
pub open spec fn imported_material<F>(d: MaterialDesc<F>, textures: Map<usize, DefaultKey>, n: nat) -> Material<F> {
    Material::Pbr(material_of(d, textures)).with_shader_id(n as u32)
}

/// Adds the glTF materials that have an index, in order, to `manager`,
/// each with its textures replaced by the keys in `textures`. Returns the
/// key each glTF material index was stored under (a later material with
/// the same index wins) and the writes of the materials' infos, in order.
pub fn import_materials<F>(
    descs: Vec<MaterialDesc<F>>,
    textures: &HashMap<usize, DefaultKey>,
    manager: &mut MaterialManager<F>,
) -> (r: (HashMap<usize, DefaultKey>, Vec<PushPlan>))
    requires
        old(manager).wf(),
        old(manager).in_order().len() + descs@.len() < u32::MAX - 1,
        can_push_each(old(manager).buffer_state(), indexed(descs@).len()),
        forall|j: int| 0 <= j < descs@.len() ==> textures_imported(#[trigger] descs@[j], textures@),
    ensures
        final(manager).wf(),
        final(manager).default_key() == old(manager).default_key(),
        final(manager).buffer_state() == pushes(old(manager).buffer_state(), indexed(descs@).len()),
        final(manager).in_order().len() == old(manager).in_order().len() + indexed(descs@).len(),
        final(manager).in_order().take(old(manager).in_order().len() as int) == old(manager).in_order(),
        forall|j: int|
            0 <= j < indexed(descs@).len() ==> #[trigger] final(manager).in_order()[old(manager).in_order().len() + j]
                == imported_material(indexed(descs@)[j], textures@, (old(manager).in_order().len() + j) as nat),
        r.1@.len() == indexed(descs@).len(),
        forall|j: int|
            0 <= j < r.1@.len() ==> #[trigger] r.1@[j] == pushes(old(manager).buffer_state(), j as nat).push_plan(1),
        forall|idx: usize|
            #[trigger] r.0@.contains_key(idx) <==> exists|j: int|
                0 <= j < indexed(descs@).len() && #[trigger] indexed(descs@)[j].index == Some(idx),
        forall|idx: usize|
            #[trigger] r.0@.contains_key(idx) ==> exists|j: int|
                #![trigger indexed(descs@)[j]]
                {
                    &&& 0 <= j < indexed(descs@).len()
                    &&& indexed(descs@)[j].index == Some(idx)
                    &&& forall|j2: int| j < j2 < indexed(descs@).len() ==> indexed(descs@)[j2].index != Some(idx)
                    &&& !old(manager).entries().contains_key(r.0@[idx])
                    &&& final(manager).entries()[r.0@[idx]] == imported_material(
                        indexed(descs@)[j],
                        textures@,
                        (old(manager).in_order().len() + j) as nat,
                    )
                },
        forall|k: DefaultKey|
            #[trigger] old(manager).entries().contains_key(k) ==> final(manager).entries().contains_key(k)
                && final(manager).entries()[k] == old(manager).entries()[k],
{
    let ghost before = *manager;
    let ghost n0 = manager.in_order().len();
    let ghost b0 = manager.buffer_state();
    let ghost all = descs@;
    let ghost total = indexed(all).len();
    let mut map: HashMap<usize, DefaultKey> = HashMap::new();
    let mut plans: Vec<PushPlan> = Vec::new();
    let mut rest = descs;
    let mut i: usize = 0;
    proof {
        lemma_indexed_len(all);
    }
    while rest.len() > 0
        invariant
            manager.wf(),
            i + rest@.len() == all.len(),
            rest@ == all.skip(i as int),
            n0 == before.in_order().len(),
            n0 + all.len() < u32::MAX - 1,
            b0 == before.buffer_state(),
            total == indexed(all).len(),
            total <= all.len(),
            can_push_each(b0, total),
            forall|j: int| 0 <= j < all.len() ==> textures_imported(#[trigger] all[j], textures@),
            indexed(all.take(i as int)).len() <= i,
            indexed(all.take(i as int)).len() <= total,
            indexed(all) == indexed(all.take(i as int)) + indexed(all.skip(i as int)),
            manager.default_key() == before.default_key(),
            manager.buffer_state() == pushes(b0, indexed(all.take(i as int)).len()),
            manager.in_order().len() == n0 + indexed(all.take(i as int)).len(),
            manager.in_order().take(n0 as int) == before.in_order(),
            forall|j: int|
                0 <= j < indexed(all.take(i as int)).len() ==> #[trigger] manager.in_order()[n0 + j]
                    == imported_material(indexed(all.take(i as int))[j], textures@, (n0 + j) as nat),
            plans@.len() == indexed(all.take(i as int)).len(),
            forall|j: int| 0 <= j < plans@.len() ==> #[trigger] plans@[j] == pushes(b0, j as nat).push_plan(1),
            forall|idx: usize|
                #[trigger] map@.contains_key(idx) <==> exists|j: int|
                    0 <= j < indexed(all.take(i as int)).len() && #[trigger] indexed(all.take(i as int))[j].index == Some(idx),
            forall|idx: usize|
                #[trigger] map@.contains_key(idx) ==> exists|j: int|
                    #![trigger indexed(all.take(i as int))[j]]
                    {
                        &&& 0 <= j < indexed(all.take(i as int)).len()
                        &&& indexed(all.take(i as int))[j].index == Some(idx)
                        &&& forall|j2: int|
                            j < j2 < indexed(all.take(i as int)).len() ==> indexed(all.take(i as int))[j2].index != Some(idx)
                        &&& !before.entries().contains_key(map@[idx])
                        &&& manager.entries().contains_key(map@[idx])
                        &&& manager.entries()[map@[idx]] == imported_material(
                            indexed(all.take(i as int))[j],
                            textures@,
                            (n0 + j) as nat,
                        )
                    },
            forall|k: DefaultKey|
                #[trigger] before.entries().contains_key(k) ==> manager.entries().contains_key(k)
                    && manager.entries()[k] == before.entries()[k],
        decreases rest@.len(),
    {
        let ghost done = indexed(all.take(i as int));
        let ghost c = done.len();
        let d = rest.remove(0);
        proof {
            assert(d == all[i as int]);
            assert(all.take(i + 1).drop_last() =~= all.take(i as int));
            assert(all.take(i + 1).last() == d);
            assert(rest@ =~= all.skip(i + 1));
        }
        match d.index {
            Some(idx) => {
                let ghost dd = d;
                proof {
                    assert(indexed(all.take(i + 1)) == done.push(dd));
                    lemma_indexed_len(all.take(i + 1));
                    lemma_indexed_split(all, i as int);
                    lemma_indexed_split(all, i + 1);
                    assert(c + 1 <= total);
                    lemma_can_push_each_prefix(b0, c + 1, total);
                    lemma_pushes(b0, c);
                }
                let mat = material_from_desc(d, textures);
                let ghost m_before = *manager;
                let (k, plan) = manager.add_material(Material::Pbr(mat));
                plans.push(plan);
                let ghost old_map = map@;
                map.insert(idx, k);
                proof {
                    let now = indexed(all.take(i + 1));
                    assert(now == done.push(dd));
                    assert(manager.in_order().take(n0 as int) =~= before.in_order()) by {
                        assert forall|j: int| 0 <= j < n0 implies manager.in_order()[j] == before.in_order()[j] by {
                            assert(m_before.in_order().take(n0 as int)[j] == before.in_order()[j]);
                        }
                    }
                    assert forall|j: int| 0 <= j < now.len() implies #[trigger] manager.in_order()[n0 + j]
                        == imported_material(now[j], textures@, (n0 + j) as nat) by {
                        if j < c {
                            assert(now[j] == done[j]);
                        }
                    }
                    assert forall|j: int| 0 <= j < plans@.len() implies #[trigger] plans@[j] == pushes(b0, j as nat).push_plan(1) by {
                        if j < c {
                        }
                    }
                    assert forall|x: usize| #[trigger] map@.contains_key(x) <==> exists|j: int|
                        0 <= j < now.len() && #[trigger] now[j].index == Some(x) by {
                        if x == idx {
                            assert(now[c as int].index == Some(x));
                        } else if old_map.contains_key(x) {
                            let j = choose|j: int| 0 <= j < done.len() && #[trigger] done[j].index == Some(x);
                            assert(now[j] == done[j]);
                        } else {
                            if exists|j: int| 0 <= j < now.len() && #[trigger] now[j].index == Some(x) {
                                let j = choose|j: int| 0 <= j < now.len() && #[trigger] now[j].index == Some(x);
                                assert(j < c);
                                assert(done[j] == now[j]);
                            }
                        }
                    }
                    assert forall|x: usize| #[trigger] map@.contains_key(x) implies exists|j: int|
                        #![trigger now[j]]
                        {
                            &&& 0 <= j < now.len()
                            &&& now[j].index == Some(x)
                            &&& forall|j2: int| j < j2 < now.len() ==> now[j2].index != Some(x)
                            &&& !before.entries().contains_key(map@[x])
                            &&& manager.entries().contains_key(map@[x])
                            &&& manager.entries()[map@[x]] == imported_material(now[j], textures@, (n0 + j) as nat)
                        } by {
                        if x == idx {
                            assert(now[c as int] == dd);
                            assert(!m_before.entries().contains_key(k));
                            assert(manager.entries()[k] == imported_material(dd, textures@, (n0 + c) as nat));
                        } else {
                            let j = choose|j: int|
                                #![trigger done[j]]
                                {
                                    &&& 0 <= j < done.len()
                                    &&& done[j].index == Some(x)
                                    &&& forall|j2: int| j < j2 < done.len() ==> done[j2].index != Some(x)
                                    &&& !before.entries().contains_key(old_map[x])
                                    &&& m_before.entries().contains_key(old_map[x])
                                    &&& m_before.entries()[old_map[x]] == imported_material(done[j], textures@, (n0 + j) as nat)
                                };
                            assert(now[j] == done[j]);
                            assert(old_map[x] != k);
                            assert forall|j2: int| j < j2 < now.len() implies now[j2].index != Some(x) by {
                                if j2 < c {
                                    assert(now[j2] == done[j2]);
                                }
                            }
                        }
                    }
                    assert forall|kk: DefaultKey| #[trigger] before.entries().contains_key(kk) implies manager.entries().contains_key(kk)
                        && manager.entries()[kk] == before.entries()[kk] by {
                        assert(m_before.entries().contains_key(kk));
                    }
                }
            },
            None => {
                proof {
                    assert(indexed(all.take(i + 1)) == done);
                    lemma_indexed_len(all.take(i + 1));
                    lemma_indexed_split(all, i + 1);
                }
            },
        }
        i += 1;
    }
    proof {
        assert(all.take(i as int) =~= all);
    }
    (map, plans)
}

/// There are no more materials with an index than materials.
pub proof fn lemma_indexed_len<F>(ds: Seq<MaterialDesc<F>>)
    ensures
        indexed(ds).len() <= ds.len(),
    decreases ds.len(),
{
    if ds.len() > 0 {
        lemma_indexed_len(ds.drop_last());
    }
}

/// Picking the materials with an index commutes with splitting the list.
pub proof fn lemma_indexed_split<F>(ds: Seq<MaterialDesc<F>>, i: int)
    requires
        0 <= i <= ds.len(),
    ensures
        indexed(ds) == indexed(ds.take(i)) + indexed(ds.skip(i)),
    decreases ds.len(),
{
    if i == ds.len() {
        assert(ds.take(i) =~= ds);
        assert(ds.skip(i) =~= Seq::<MaterialDesc<F>>::empty());
        assert(indexed(ds) + Seq::<MaterialDesc<F>>::empty() =~= indexed(ds));
    } else {
        let init = ds.drop_last();
        lemma_indexed_split(init, i);
        assert(init.take(i) =~= ds.take(i));
        assert(ds.skip(i).drop_last() =~= init.skip(i));
        assert(ds.skip(i).last() == ds.last());
        if ds.last().index is Some {
            assert(indexed(ds.skip(i)) == indexed(init.skip(i)).push(ds.last()));
            assert((indexed(init.take(i)) + indexed(init.skip(i))).push(ds.last()) =~= indexed(ds.take(i)) + indexed(
                init.skip(i),
            ).push(ds.last()));
        } else {
            assert(indexed(ds.skip(i)) == indexed(init.skip(i)));
        }
    }
}

/// The key of the material a primitive names by glTF index, or the
/// default material when it names none.
pub open spec fn material_key(materials: Map<usize, DefaultKey>, default: DefaultKey, m: Option<usize>) -> DefaultKey {
    match m {
        Some(i) => materials[i],
        None => default,
    }
}

/// `mesh` is the mesh imported from the primitive `p`: a new mesh, due for
/// an upload, drawing `p`'s geometry with its material.
pub open spec fn mesh_imported<P>(
    p: PrimitiveDesc<P>,
    mesh: Mesh<MeshData<P>>,
    materials: Map<usize, DefaultKey>,
    default: DefaultKey,
) -> bool {
    &&& mesh.dirty
    &&& mesh.id < 0x8000_0000
    &&& mesh.data == MeshData { material: material_key(materials, default, p.material), geometry: p.geometry }
}

/// The light imported from a node's light: a point light in the slot of
/// the glTF light index, due for an upload.
pub open spec fn light_of<LD>(l: Option<LightDesc<LD>>) -> Option<PointLight<LD>> {
    match l {
        Some(l) => Some(PointLight { dirty: true, index: l.index, data: l.data }),
        None => None,
    }
}

/// `m` is the model imported from the node `n`, with its children imported
/// in order.
pub open spec fn node_imported<P, LD, T>(
    n: NodeDesc<P, LD, T>,
    m: Model<MeshData<P>, LD, T>,
    materials: Map<usize, DefaultKey>,
    default: DefaultKey,
) -> bool
    decreases n,
{
    &&& m.id < 0x8000_0000
    &&& m.name == n.name
    &&& m.transform == n.transform
    &&& m.light == light_of(n.light)
    &&& m.meshes@.len() == n.primitives@.len()
    &&& forall|i: int|
        0 <= i < n.primitives@.len() ==> mesh_imported(
            #[trigger] n.primitives@[i],
            m.meshes@[i],
            materials,
            default,
        )
    &&& forest_imported(n.children@, m.children@, materials, default)
}

/// `ms` are the models imported from the nodes `ns`, in order.
pub open spec fn forest_imported<P, LD, T>(
    ns: Seq<NodeDesc<P, LD, T>>,
    ms: Seq<Model<MeshData<P>, LD, T>>,
    materials: Map<usize, DefaultKey>,
    default: DefaultKey,
) -> bool
    decreases ns,
{
    &&& ns.len() == ms.len()
    &&& ns.len() > 0 ==> {
        &&& forest_imported(ns.drop_last(), ms.drop_last(), materials, default)
        &&& node_imported(ns.last(), ms.last(), materials, default)
    }
}

/// Every material a primitive of `n` or of its descendants names was
/// imported.
pub open spec fn node_materials_known<P, LD, T>(n: NodeDesc<P, LD, T>, materials: Map<usize, DefaultKey>) -> bool
    decreases n,
{
    &&& forall|i: int|
        0 <= i < n.primitives@.len() ==> ((#[trigger] n.primitives@[i]).material matches Some(k)
            ==> materials.contains_key(k))
    &&& forest_materials_known(n.children@, materials)
}

/// Every material a primitive of the nodes `ns` or of their descendants
/// names was imported.
pub open spec fn forest_materials_known<P, LD, T>(ns: Seq<NodeDesc<P, LD, T>>, materials: Map<usize, DefaultKey>) -> bool
    decreases ns,
{
    ns.len() > 0 ==> {
        &&& forest_materials_known(ns.drop_last(), materials)
        &&& node_materials_known(ns.last(), materials)
    }
}

/// How many lights `n` and its descendants carry.
pub open spec fn node_lights<P, LD, T>(n: NodeDesc<P, LD, T>) -> nat
    decreases n,
{
    forest_lights(n.children@) + if n.light is Some { 1nat } else { 0nat }
}

/// How many lights the nodes `ns` and their descendants carry.
pub open spec fn forest_lights<P, LD, T>(ns: Seq<NodeDesc<P, LD, T>>) -> nat
    decreases ns,
{
    if ns.len() == 0 {
        0
    } else {
        forest_lights(ns.drop_last()) + node_lights(ns.last())
    }
}

/// A prefix of a forest carries no more lights than the forest.
pub proof fn lemma_forest_lights_prefix<P, LD, T>(ns: Seq<NodeDesc<P, LD, T>>, i: int)
    requires
        0 <= i <= ns.len(),
    ensures
        forest_lights(ns.take(i)) <= forest_lights(ns),
    decreases ns.len(),
{
    if i < ns.len() {
        lemma_forest_lights_prefix(ns.drop_last(), i);
        assert(ns.drop_last().take(i) =~= ns.take(i));
    } else {
        assert(ns.take(i) =~= ns);
    }
}

/// The nodes of a forest whose materials were all imported have their
/// materials imported.
pub proof fn lemma_forest_materials_known<P, LD, T>(
    ns: Seq<NodeDesc<P, LD, T>>,
    materials: Map<usize, DefaultKey>,
    i: int,
)
    requires
        forest_materials_known(ns, materials),
        0 <= i < ns.len(),
    ensures
        node_materials_known(ns[i], materials),
    decreases ns.len(),
{
    if i < ns.len() - 1 {
        lemma_forest_materials_known(ns.drop_last(), materials, i);
    }
}

/// The model of a glTF node: its children first (in order), then a mesh
/// per primitive, shaded with the material the primitive names or the
/// default material, and a point light if the node has one, which is
/// counted in `num_lights`.
pub fn load_node<P, LD, T>(
    node: NodeDesc<P, LD, T>,
    materials: &HashMap<usize, DefaultKey>,
    default_material: DefaultKey,
    num_lights: &mut u32,
) -> (m: Model<MeshData<P>, LD, T>)
    requires
        node_materials_known(node, materials@),
        *old(num_lights) + node_lights(node) <= u32::MAX,
    ensures
        node_imported(node, m, materials@, default_material),
        *final(num_lights) == *old(num_lights) + node_lights(node),
    decreases node,
{
    let ghost g = node;
    let NodeDesc { name, transform, primitives, light, children } = node;
    proof {
        assert(decreases_to!(g => g.children));
        assert(decreases_to!(g.children => g.children@));
    }
    let children = load_nodes(children, materials, default_material, num_lights);
    let ghost prims = primitives@;
    let mut meshes: Vec<Mesh<MeshData<P>>> = Vec::new();
    let mut rest = primitives;
    let count: usize = rest.len();
    let mut i: usize = 0;
    while rest.len() > 0
        invariant
            i + rest@.len() == prims.len(),
            prims.len() == count,
            rest@ == prims.skip(i as int),
            prims == g.primitives@,
            forall|j: int|
                0 <= j < prims.len() ==> ((#[trigger] prims[j]).material matches Some(k) ==> materials@.contains_key(k)),
            meshes@.len() == i,
            forall|j: int| 0 <= j < i ==> mesh_imported(#[trigger] prims[j], meshes@[j], materials@, default_material),
        decreases rest@.len(),
    {
        let p = rest.remove(0);
        proof {
            assert(p == prims[i as int]);
            assert(rest@ =~= prims.skip(i + 1));
        }
        let material = match p.material {
            Some(k) => *materials.get(&k).unwrap(),
            None => default_material,
        };
        meshes.push(Mesh::from(MeshData { material, geometry: p.geometry }));
        i += 1;
    }
    let light = match light {
        Some(l) => {
            *num_lights = *num_lights + 1;
            Some(PointLight::new(l.index, l.data))
        },
        None => None,
    };
    Model::from(meshes, name, children, transform, light)
}

/// The models of the glTF nodes `nodes`, in order (see `load_node`).
pub fn load_nodes<P, LD, T>(
    nodes: Vec<NodeDesc<P, LD, T>>,
    materials: &HashMap<usize, DefaultKey>,
    default_material: DefaultKey,
    num_lights: &mut u32,
) -> (r: Vec<Model<MeshData<P>, LD, T>>)
    requires
        forest_materials_known(nodes@, materials@),
        *old(num_lights) + forest_lights(nodes@) <= u32::MAX,
    ensures
        forest_imported(nodes@, r@, materials@, default_material),
        *final(num_lights) == *old(num_lights) + forest_lights(nodes@),
    decreases nodes@,
{
    let ghost all = nodes@;
    let ghost start = *num_lights;
    let mut out: Vec<Model<MeshData<P>, LD, T>> = Vec::new();
    let mut rest = nodes;
    let count: usize = rest.len();
    let mut i: usize = 0;
    while rest.len() > 0
        invariant
            i + rest@.len() == all.len(),
            all.len() == count,
            all == nodes@,
            rest@ == all.skip(i as int),
            forest_materials_known(all, materials@),
            start + forest_lights(all) <= u32::MAX,
            *num_lights == start + forest_lights(all.take(i as int)),
            forest_imported(all.take(i as int), out@, materials@, default_material),
        decreases rest@.len(),
    {
        let n = rest.remove(0);
        proof {
            assert(n == all[i as int]);
            assert(rest@ =~= all.skip(i + 1));
            assert(decreases_to!(all => all[i as int]));
            lemma_forest_materials_known(all, materials@, i as int);
            let t = all.take(i + 1);
            assert(t.drop_last() =~= all.take(i as int));
            assert(t.last() == n);
            lemma_forest_lights_prefix(all, i + 1);
        }
        let m = load_node(n, materials, default_material, num_lights);
        let ghost before = out@;
        out.push(m);
        proof {
            let t = all.take(i + 1);
            assert(out@.drop_last() =~= before);
            assert(out@.last() == m);
            assert(forest_imported(t, out@, materials@, default_material));
        }
        i += 1;
    }
    proof {
        assert(all.take(i as int) =~= all);
    }
    out
}

/// Whether the texture `i` refers to was imported (see `known`).
fn known_exec(textures: &HashMap<usize, DefaultKey>, i: &Option<usize>) -> (r: bool)
    ensures
        r == known(textures@, *i),
{
    match i {
        Some(i) => textures.contains_key(i),
        None => true,
    }
}

/// Whether `import_materials(descs, textures, manager)` may be called on a
/// well-formed manager: the shader ids fit, the material buffer has room
/// for the indexed materials, and every texture they name was imported.
pub fn materials_importable<F>(
    descs: &Vec<MaterialDesc<F>>,
    textures: &HashMap<usize, DefaultKey>,
    manager: &MaterialManager<F>,
) -> (r: bool)
    ensures
        r == (manager.in_order().len() + descs@.len() < u32::MAX - 1 && can_push_each(
            manager.buffer_state(),
            indexed(descs@).len(),
        ) && forall|j: int| 0 <= j < descs@.len() ==> textures_imported(#[trigger] descs@[j], textures@)),
{
    let held = manager.iter().len();
    let n = descs.len();
    if held >= u32::MAX as usize - 1 || n >= u32::MAX as usize - 1 - held {
        return false;
    }
    let mut indexed_count: usize = 0;
    let mut i: usize = 0;
    while i < n
        invariant
            n == descs@.len(),
            i <= n,
            indexed_count == indexed(descs@.take(i as int)).len(),
            indexed_count <= i,
            forall|j: int| 0 <= j < i ==> textures_imported(#[trigger] descs@[j], textures@),
        decreases n - i,
    {
        let d = &descs[i];
        if !(known_exec(textures, &d.albedo) && known_exec(textures, &d.metallic_roughness) && known_exec(textures, &d.normal)
            && known_exec(textures, &d.occlusion) && known_exec(textures, &d.emissive)) {
            return false;
        }
        proof {
            let t = descs@.take(i + 1);
            assert(t.drop_last() =~= descs@.take(i as int));
            assert(t.last() == descs@[i as int]);
            lemma_indexed_len(descs@.take(i as int));
        }
        if d.index.is_some() {
            indexed_count += 1;
        }
        i += 1;
    }
    proof {
        assert(descs@.take(n as int) =~= descs@);
    }
    manager.can_add_each(indexed_count)
}

/// The lights of the node `n` and its descendants, if every material their
/// primitives name was imported and there are at most `budget` lights.
fn node_check<P, LD, T>(n: &NodeDesc<P, LD, T>, materials: &HashMap<usize, DefaultKey>, budget: u64) -> (r: Option<u64>)
    ensures
        r is Some <==> node_materials_known(*n, materials@) && node_lights(*n) <= budget,
        r matches Some(c) ==> c == node_lights(*n),
    decreases *n,
{
    let k = n.primitives.len();
    let mut i: usize = 0;
    while i < k
        invariant
            k == n.primitives@.len(),
            i <= k,
            forall|j: int|
                0 <= j < i ==> ((#[trigger] n.primitives@[j]).material matches Some(m) ==> materials@.contains_key(m)),
        decreases k - i,
    {
        match &n.primitives[i].material {
            Some(m) => {
                if !materials.contains_key(m) {
                    return None;
                }
            },
            None => {},
        }
        i += 1;
    }
    let own: u64 = if n.light.is_some() { 1 } else { 0 };
    if own > budget {
        return None;
    }
    proof {
        assert(decreases_to!(*n => n.children));
        assert(decreases_to!(n.children => n.children@));
    }
    match forest_check(&n.children, materials, budget - own) {
        Some(c) => Some(c + own),
        None => None,
    }
}

/// The lights of the nodes `ns` and their descendants, if every material
/// their primitives name was imported and there are at most `budget`
/// lights.
fn forest_check<P, LD, T>(ns: &Vec<NodeDesc<P, LD, T>>, materials: &HashMap<usize, DefaultKey>, budget: u64) -> (r:
    Option<u64>)
    ensures
        r is Some <==> forest_materials_known(ns@, materials@) && forest_lights(ns@) <= budget,
        r matches Some(c) ==> c == forest_lights(ns@),
    decreases ns@,
{
    let ghost all = ns@;
    let n = ns.len();
    let mut acc: u64 = 0;
    let mut i: usize = 0;
    while i < n
        invariant
            all == ns@,
            n == all.len(),
            i <= n,
            acc == forest_lights(all.take(i as int)),
            acc <= budget,
            forest_materials_known(all.take(i as int), materials@),
        decreases n - i,
    {
        proof {
            assert(decreases_to!(all => all[i as int]));
            let t = all.take(i + 1);
            assert(t.drop_last() =~= all.take(i as int));
            assert(t.last() == all[i as int]);
            lemma_forest_lights_prefix(all, i + 1);
        }
        match node_check(&ns[i], materials, budget - acc) {
            Some(c) => {
                acc = acc + c;
            },
            None => {
                proof {
                    if forest_materials_known(all, materials@) {
                        lemma_forest_materials_known(all, materials@, i as int);
                    }
                }
                return None;
            },
        }
        i += 1;
    }
    proof {
        assert(all.take(n as int) =~= all);
    }
    Some(acc)
}

/// Whether `load_nodes(nodes, materials, _, num_lights)` may be called:
/// every material the nodes' primitives name was imported, and the light
/// count stays within a `u32`.
pub fn nodes_loadable<P, LD, T>(nodes: &Vec<NodeDesc<P, LD, T>>, materials: &HashMap<usize, DefaultKey>, num_lights: u32) -> (r:
    bool)
    ensures
        r == (forest_materials_known(nodes@, materials@) && num_lights + forest_lights(nodes@) <= u32::MAX),
{
    forest_check(nodes, materials, (u32::MAX - num_lights) as u64).is_some()
}

/// A glTF scene with what the importer reads from it: its name and its
/// root nodes.
#[derive(Debug)]
pub struct SceneDesc<P, LD, T> {
    pub name: Option<String>,
    pub nodes: Vec<NodeDesc<P, LD, T>>,
}

/// How many primitives the root nodes `ns` have.
pub open spec fn root_primitives<P, LD, T>(ns: Seq<NodeDesc<P, LD, T>>) -> nat
    decreases ns.len(),
{
    if ns.len() == 0 {
        0
    } else {
        root_primitives(ns.drop_last()) + ns.last().primitives@.len()
    }
}

/// How many of the root nodes `ns` carry a light.
pub open spec fn root_lights<P, LD, T>(ns: Seq<NodeDesc<P, LD, T>>) -> nat
    decreases ns.len(),
{
    if ns.len() == 0 {
        0
    } else {
        root_lights(ns.drop_last()) + if ns.last().light is Some { 1nat } else { 0nat }
    }
}

/// Imported roots have a mesh per root primitive and a light per root light.
proof fn lemma_imported_roots<P, LD, T>(
    ns: Seq<NodeDesc<P, LD, T>>,
    ms: Seq<Model<MeshData<P>, LD, T>>,
    materials: Map<usize, DefaultKey>,
    default: DefaultKey,
)
    requires
        forest_imported(ns, ms, materials, default),
    ensures
        top_meshes(ms).len() == root_primitives(ns),
        light_count(ms) == root_lights(ns),
    decreases ns.len(),
{
    if ns.len() > 0 {
        lemma_imported_roots(ns.drop_last(), ms.drop_last(), materials, default);
        assert(node_imported(ns.last(), ms.last(), materials, default));
    }
}

/// Whether the scene `d` can be loaded: its nodes can be (see
/// `nodes_loadable`, counting lights from 0), and fresh mesh and light
/// arrays of elements of the given sizes have room for the infos of its
/// roots' meshes and lights.
pub open spec fn scene_loadable<P, LD, T>(
    d: SceneDesc<P, LD, T>,
    materials: Map<usize, DefaultKey>,
    mesh_info_size: nat,
    light_info_size: nat,
) -> bool {
    &&& forest_materials_known(d.nodes@, materials)
    &&& forest_lights(d.nodes@) <= u32::MAX
    &&& PREALLOC_COUNT * mesh_info_size <= u64::MAX
    &&& PREALLOC_COUNT * light_info_size <= u64::MAX
    &&& can_push_each(DynamicBufferArray::fresh(None, mesh_info_size), root_primitives(d.nodes@))
    &&& can_push_each(DynamicBufferArray::fresh(None, light_info_size), root_lights(d.nodes@))
}

/// `s` is the scene loaded from `d`, which asked for the uploads `ops`:
/// its roots are the models of `d`'s nodes (see `load_nodes`), it has `d`'s
/// name, and fresh mesh and light arrays received the infos of its roots'
/// meshes and lights (see `Scene::from`).
pub open spec fn scene_loaded<P, LD, T>(
    d: SceneDesc<P, LD, T>,
    s: Scene<MeshData<P>, LD, T>,
    ops: Seq<BufferWrite>,
    materials: Map<usize, DefaultKey>,
    default: DefaultKey,
    mesh_info_size: nat,
    light_info_size: nat,
) -> bool {
    &&& forest_imported(d.nodes@, s.models@, materials, default)
    &&& s.name == d.name
    &&& s.id < 0x8000_0000
    &&& s.wf()
    &&& s.mesh_buffer.array() == pushes(
        DynamicBufferArray::fresh(s.mesh_buffer.array().label(), mesh_info_size),
        top_meshes(s.models@).len(),
    )
    &&& s.mesh_buffer.index_map() == keys_pushed(Map::empty(), top_meshes(s.models@), 0)
    &&& s.light_buffer == pushes(DynamicBufferArray::fresh(s.light_buffer.label(), light_info_size), light_count(s.models@))
    &&& ops == forest_push_ops(
        DynamicBufferArray::fresh(s.mesh_buffer.array().label(), mesh_info_size),
        DynamicBufferArray::fresh(s.light_buffer.label(), light_info_size),
        s.models@,
    )
}

/// The scenes of a glTF file, in order, each made of the models of its
/// nodes (see `load_nodes`, each scene counting its lights from 0), with
/// the uploads each asks for (see `scene_loaded`). None exactly when a
/// scene cannot be loaded (see `scene_loadable`).
#[verifier::loop_isolation(false)]
pub fn load_scenes<P, LD, T>(
    descs: Vec<SceneDesc<P, LD, T>>,
    materials: &HashMap<usize, DefaultKey>,
    default_material: DefaultKey,
    mesh_info_size: u64,
    light_info_size: u64,
) -> (o: Option<Vec<(Scene<MeshData<P>, LD, T>, Vec<BufferWrite>)>>)
    ensures
        o is Some <==> forall|i: int|
            0 <= i < descs@.len() ==> scene_loadable(
                #[trigger] descs@[i],
                materials@,
                mesh_info_size as nat,
                light_info_size as nat,
            ),
        o matches Some(v) ==> v@.len() == descs@.len() && forall|i: int|
            0 <= i < descs@.len() ==> scene_loaded(
                #[trigger] descs@[i],
                v@[i].0,
                v@[i].1@,
                materials@,
                default_material,
                mesh_info_size as nat,
                light_info_size as nat,
            ),
{
    let ghost all = descs@;
    let mut rest = descs;
    let mut out: Vec<(Scene<MeshData<P>, LD, T>, Vec<BufferWrite>)> = Vec::new();
    let n = rest.len();
    let mut i: usize = 0;
    while i < n
        invariant
            n == all.len(),
            i <= n,
            rest@ == all.subrange(i as int, n as int),
            out@.len() == i,
            forall|j: int|
                0 <= j < i ==> scene_loadable(#[trigger] all[j], materials@, mesh_info_size as nat, light_info_size as nat),
            forall|j: int|
                0 <= j < i ==> scene_loaded(
                    #[trigger] all[j],
                    out@[j].0,
                    out@[j].1@,
                    materials@,
                    default_material,
                    mesh_info_size as nat,
                    light_info_size as nat,
                ),
        decreases n - i,
    {
        let d = rest.remove(0);
        proof {
            assert(d == all[i as int]);
            assert(rest@ =~= all.subrange(i + 1, n as int));
        }
        let ghost gd = d;
        let SceneDesc { name, nodes } = d;
        if !nodes_loadable(&nodes, materials, 0) || mesh_info_size.checked_mul(PREALLOC_COUNT).is_none()
            || light_info_size.checked_mul(PREALLOC_COUNT).is_none() {
            return None;
        }
        let mut num_lights: u32 = 0;
        let models = load_nodes(nodes, materials, default_material, &mut num_lights);
        proof {
            lemma_imported_roots(gd.nodes@, models@, materials@, default_material);
            DynamicBufferArray::lemma_fresh(None, None, mesh_info_size as nat);
            DynamicBufferArray::lemma_fresh(None, None, light_info_size as nat);
        }
        let mesh_count = root_meshes(&models).len();
        let light_total = root_light_count(&models);
        if !DynamicBufferArray::new(None, mesh_info_size).can_push_each_exec(mesh_count)
            || !DynamicBufferArray::new(None, light_info_size).can_push_each_exec(light_total) {
            return None;
        }
        let (scene, ops) = Scene::from(models, name, mesh_info_size, light_info_size);
        let ghost before = out@;
        out.push((scene, ops));
        proof {
            assert forall|j: int| 0 <= j < i + 1 implies scene_loaded(
                #[trigger] all[j],
                out@[j].0,
                out@[j].1@,
                materials@,
                default_material,
                mesh_info_size as nat,
                light_info_size as nat,
            ) by {
                if j < i {
                    assert(out@[j] == before[j]);
                }
            }
        }
        i += 1;
    }
    Some(out)
}

} // verus!
