use crate::buffers::{can_push_each, pushes, DynamicBufferArray, PushPlan, PREALLOC_COUNT};
use crate::slots::{slot_ids, slots_entries, slots_get, slots_insert, slots_len, slots_new, IdSlots};
use crate::texture::{has_slot, Texture, TextureKind, TextureManager};
use slotmap::DefaultKey;
use vstd::prelude::*;

verus! {

/// A physically based material: which textures it samples, its index in
/// the material buffer (`shader_id`), and the colour factors and bind group
/// `F` that only the renderer reads.
#[derive(Debug)]
pub struct PbrMaterial<F> {
    pub dirty: bool,
    pub shader_id: u32,
    pub name: Option<String>,
    pub albedo_texture: Option<DefaultKey>,
    pub metallic_roughness_texture: Option<DefaultKey>,
    pub normal_texture: Option<DefaultKey>,
    pub occlusion_texture: Option<DefaultKey>,
    pub emissive_texture: Option<DefaultKey>,
    pub factors: F,
}

/// Which resource of a texture a bind group entry holds.
#[derive(Debug, Clone, Copy, PartialEq, Eq, Structural)]
pub enum TextureResource {
    View,
    Sampler,
}

/// One entry of a material's texture bind group.
#[derive(Debug)]
pub struct BindEntry<'a, D> {
    pub binding: u32,
    pub resource: TextureResource,
    pub texture: &'a Texture<D>,
}

/// The textures a PBR material samples, in binding order, each with the
/// kind whose default stands in for it.
pub open spec fn texture_slots<F>(m: PbrMaterial<F>) -> Seq<(Option<DefaultKey>, TextureKind)> {
    seq![
        (m.albedo_texture, TextureKind::Albedo),
        (m.normal_texture, TextureKind::Normal),
        (m.metallic_roughness_texture, TextureKind::MetalRoughness),
        (m.occlusion_texture, TextureKind::Occlusion),
        (m.emissive_texture, TextureKind::Emission),
    ]
}

/// Every texture the material names is held by `textures`.
pub open spec fn textures_known<F, D>(m: PbrMaterial<F>, textures: TextureManager<D>) -> bool {
    forall|i: int|
        0 <= i < 5 ==> ((#[trigger] texture_slots(m)[i]).0 matches Some(k) ==> textures.entries().contains_key(k))
}

impl<F> PbrMaterial<F> {
    /// The default material: no textures but `base_texture` as albedo, due
    /// for an upload.
    pub fn from_default(base_texture: Option<DefaultKey>, factors: F) -> (r: Self)
        ensures
            r.dirty,
            r.shader_id == 0,
            r.name matches Some(n) && n@ == "Default material"@,
            r.albedo_texture == base_texture,
            r.metallic_roughness_texture is None,
            r.normal_texture is None,
            r.occlusion_texture is None,
            r.emissive_texture is None,
            r.factors == factors,
    {
        broadcast use vstd::string::to_string_from_display_ensures_for_str;

        PbrMaterial {
            dirty: true,
            shader_id: 0,
            name: Some("Default material".to_string()),
            albedo_texture: base_texture,
            metallic_roughness_texture: None,
            normal_texture: None,
            occlusion_texture: None,
            emissive_texture: None,
            factors,
        }
    }

    /// The entries of the material's texture bind group: for the albedo,
    /// normal, metallic-roughness, occlusion and emission textures in turn
    /// (the default of that kind where the material names none), the view
    /// and then the sampler, at bindings 0 to 9.
    pub fn create_texture_bind_group<'a, D>(&self, tex_mgr: &'a TextureManager<D>) -> (r: Vec<BindEntry<'a, D>>)
        requires
            tex_mgr.wf(),
            textures_known(*self, *tex_mgr),
        ensures
            r@.len() == 10,
            forall|i: int|
                0 <= i < 10 ==> {
                    &&& (#[trigger] r@[i]).binding == i
                    &&& r@[i].resource == if i % 2 == 0 {
                        TextureResource::View
                    } else {
                        TextureResource::Sampler
                    }
                    &&& *r@[i].texture == tex_mgr.chosen(texture_slots(*self)[i / 2].0, texture_slots(*self)[i / 2].1)
                },
    {
        let ghost slots = texture_slots(*self);
        proof {
            assert(slots[0] == (self.albedo_texture, TextureKind::Albedo));
            assert(slots[1] == (self.normal_texture, TextureKind::Normal));
            assert(slots[2] == (self.metallic_roughness_texture, TextureKind::MetalRoughness));
            assert(slots[3] == (self.occlusion_texture, TextureKind::Occlusion));
            assert(slots[4] == (self.emissive_texture, TextureKind::Emission));
        }
        let chosen = [
            tex_mgr.unwrap_default(&self.albedo_texture, TextureKind::Albedo),
            tex_mgr.unwrap_default(&self.normal_texture, TextureKind::Normal),
            tex_mgr.unwrap_default(&self.metallic_roughness_texture, TextureKind::MetalRoughness),
            tex_mgr.unwrap_default(&self.occlusion_texture, TextureKind::Occlusion),
            tex_mgr.unwrap_default(&self.emissive_texture, TextureKind::Emission),
        ];
        let mut r: Vec<BindEntry<'a, D>> = Vec::new();
        let mut i: usize = 0;
        while i < 5
            invariant
                i <= 5,
                r@.len() == 2 * i,
                forall|j: int| 0 <= j < 5 ==> *#[trigger] chosen@[j] == tex_mgr.chosen(slots[j].0, slots[j].1),
                forall|j: int|
                    0 <= j < 2 * i ==> {
                        &&& (#[trigger] r@[j]).binding == j
                        &&& r@[j].resource == if j % 2 == 0 {
                            TextureResource::View
                        } else {
                            TextureResource::Sampler
                        }
                        &&& *r@[j].texture == tex_mgr.chosen(slots[j / 2].0, slots[j / 2].1)
                    },
            decreases 5 - i,
        {
            let t = chosen[i];
            let b = r.len() as u32;
            r.push(BindEntry { binding: b, resource: TextureResource::View, texture: t });
            let b = r.len() as u32;
            r.push(BindEntry { binding: b, resource: TextureResource::Sampler, texture: t });
            proof {
                assert((2 * i) / 2 == i as int);
                assert((2 * i + 1) / 2 == i as int);
                assert((2 * i) % 2 == 0);
                assert((2 * i + 1) % 2 == 1);
            }
            i += 1;
        }
        r
    }

    /// Whether the material changed since its last upload.
    pub fn dirty(&self) -> (r: bool)
        ensures
            r == self.dirty,
    {
        self.dirty
    }
}

/// A material of any of the supported shading models.
#[derive(Debug)]
pub enum Material<F> {
    Pbr(PbrMaterial<F>),
}

impl<F> Material<F> {
    pub open spec fn spec_shader_id(&self) -> u32 {
        match self {
            Material::Pbr(pbr) => pbr.shader_id,
        }
    }

    pub open spec fn spec_dirty(&self) -> bool {
        match self {
            Material::Pbr(pbr) => pbr.dirty,
        }
    }

    /// The same material with another shader id.
    pub open spec fn with_shader_id(self, id: u32) -> Self {
        match self {
            Material::Pbr(pbr) => Material::Pbr(PbrMaterial { shader_id: id, ..pbr }),
        }
    }

    /// The same material, up to date.
    pub open spec fn cleaned(self) -> Self {
        match self {
            Material::Pbr(pbr) => Material::Pbr(PbrMaterial { dirty: false, ..pbr }),
        }
    }

    /// Index of the material's info in the material buffer.
    pub fn shader_id(&self) -> (r: u32)
        ensures
            r == self.spec_shader_id(),
    {
        match self {
            Material::Pbr(pbr) => pbr.shader_id,
        }
    }

    pub fn set_shader_id(&mut self, id: u32)
        ensures
            *final(self) == old(self).with_shader_id(id),
    {
        match self {
            Material::Pbr(pbr) => pbr.shader_id = id,
        }
    }

    pub fn name(&self) -> (r: &Option<String>)
        ensures
            *r == match self {
                Material::Pbr(pbr) => pbr.name,
            },
    {
        match self {
            Material::Pbr(pbr) => &pbr.name,
        }
    }

    pub fn dirty(&self) -> (r: bool)
        ensures
            r == self.spec_dirty(),
    {
        match self {
            Material::Pbr(pbr) => pbr.dirty(),
        }
    }
}

/// The material's info at `offset` of the material buffer must be rewritten.
#[derive(Debug, Clone, Copy, PartialEq, Eq, Structural)]
pub struct MaterialWrite {
    pub shader_id: u32,
    pub offset: u64,
}

/// The writes `update_dirty` asks for: one per dirty material, in order.
pub open spec fn dirty_writes<F>(ms: Seq<Material<F>>, elem_size: nat) -> Seq<MaterialWrite>
    decreases ms.len(),
{
    if ms.len() == 0 {
        Seq::empty()
    } else {
        let rest = dirty_writes(ms.drop_last(), elem_size);
        let m = ms.last();
        if m.spec_dirty() {
            rest.push(
                MaterialWrite {
                    shader_id: m.spec_shader_id(),
                    offset: (m.spec_shader_id() * elem_size) as u64,
                },
            )
        } else {
            rest
        }
    }
}

/// Uploads settle: once the dirty materials were rewritten, rewriting them
/// again asks for nothing.
pub proof fn lemma_material_updates_settle<F>(old: Seq<Material<F>>, new: Seq<Material<F>>, elem_size: nat)
    requires
        old.len() == new.len(),
        forall|i: int| 0 <= i < old.len() ==> #[trigger] new[i] == old[i].cleaned(),
    ensures
        dirty_writes(new, elem_size).len() == 0,
    decreases old.len(),
{
    if old.len() > 0 {
        assert forall|i: int| 0 <= i < old.len() - 1 implies #[trigger] new.drop_last()[i] == old.drop_last()[i].cleaned() by {
            assert(new[i] == old[i].cleaned());
        }
        lemma_material_updates_settle(old.drop_last(), new.drop_last(), elem_size);
        assert(new[new.len() - 1] == old[old.len() - 1].cleaned());
    }
}

/// The materials of a world, each under a key handed out when it was added,
/// and the GPU array of their infos: a material's shader id is the index of
/// its info there.
#[derive(Debug)]
pub struct MaterialManager<F> {
    slots: IdSlots,
    materials: Vec<Material<F>>,
    pub default_material: DefaultKey,
    pub buffer: DynamicBufferArray,
}

impl<F> MaterialManager<F> {
    /// The slot map sends the keys one to one onto the positions of the
    /// stored materials, the default key is among them, each material's
    /// shader id is its position, and the buffer holds one info per material.
    pub closed spec fn wf(&self) -> bool {
        let ids = slot_ids(self.slots);
        &&& ids.dom().finite()
        &&& ids.len() == self.materials@.len()
        &&& forall|k: DefaultKey| #[trigger] ids.contains_key(k) ==> ids[k] < self.materials@.len()
        &&& forall|k1: DefaultKey, k2: DefaultKey|
            #[trigger] ids.contains_key(k1) && #[trigger] ids.contains_key(k2) && ids[k1] == ids[k2] ==> k1 == k2
        &&& forall|i: int| 0 <= i < self.materials@.len() ==> #[trigger] has_slot(ids, i)
        &&& ids.contains_key(self.default_material)
        &&& forall|i: int| 0 <= i < self.materials@.len() ==> (#[trigger] self.materials@[i]).spec_shader_id() == i
        &&& self.buffer.count() == self.materials@.len()
    }

    /// Key to material.
    pub closed spec fn entries(&self) -> Map<DefaultKey, Material<F>> {
        Map::new(
            |k: DefaultKey| slot_ids(self.slots).contains_key(k),
            |k: DefaultKey| self.materials@[slot_ids(self.slots)[k] as int],
        )
    }

    /// The materials in the order they were added.
    pub closed spec fn in_order(&self) -> Seq<Material<F>> {
        self.materials@
    }

    /// The bookkeeping of the material buffer.
    pub closed spec fn buffer_state(&self) -> DynamicBufferArray {
        self.buffer
    }

    /// The key of the material every world starts with.
    pub closed spec fn default_key(&self) -> DefaultKey {
        self.default_material
    }

    /// What a well-formed manager satisfies: there are as many keys as
    /// materials and as infos in the buffer, and each material's shader id
    /// is the index of its info there.
    pub proof fn lemma_wf(&self)
        requires
            self.wf(),
        ensures
            self.entries().dom().finite(),
            self.entries().len() == self.in_order().len(),
            self.buffer_state().count() == self.in_order().len(),
            self.entries().contains_key(self.default_key()),
            forall|i: int| 0 <= i < self.in_order().len() ==> (#[trigger] self.in_order()[i]).spec_shader_id() == i,
            forall|k: DefaultKey|
                #[trigger] self.entries().contains_key(k) ==> self.entries()[k].spec_shader_id() < self.buffer_state().count()
                    && self.in_order()[self.entries()[k].spec_shader_id() as int] == self.entries()[k],
    {
        let ids = slot_ids(self.slots);
        assert(self.entries().dom() =~= ids.dom());
        assert forall|k: DefaultKey| #[trigger] self.entries().contains_key(k) implies self.entries()[k].spec_shader_id()
            < self.buffer.count() && self.in_order()[self.entries()[k].spec_shader_id() as int] == self.entries()[k] by {
            assert(self.materials@[ids[k] as int].spec_shader_id() == ids[k]);
        }
    }

    /// Each material has a shader id of its own: different keys lead to
    /// materials with different shader ids, each below the number of infos
    /// in the buffer.
    pub proof fn lemma_shader_ids_distinct(&self)
        requires
            self.wf(),
        ensures
            forall|k1: DefaultKey, k2: DefaultKey|
                #[trigger] self.entries().contains_key(k1) && #[trigger] self.entries().contains_key(k2) && k1 != k2
                    ==> self.entries()[k1].spec_shader_id() != self.entries()[k2].spec_shader_id(),
            forall|k: DefaultKey|
                #[trigger] self.entries().contains_key(k) ==> self.entries()[k].spec_shader_id() < self.buffer_state().count(),
    {
        let ids = slot_ids(self.slots);
        assert forall|k1: DefaultKey, k2: DefaultKey|
            #[trigger] self.entries().contains_key(k1) && #[trigger] self.entries().contains_key(k2) && k1 != k2
                implies self.entries()[k1].spec_shader_id() != self.entries()[k2].spec_shader_id() by {
            assert(self.materials@[ids[k1] as int].spec_shader_id() == ids[k1]);
            assert(self.materials@[ids[k2] as int].spec_shader_id() == ids[k2]);
        }
        self.lemma_wf();
    }

    /// A manager holding the default material, with a material buffer of
    /// elements of `material_info_size` bytes that receives its info.
    /// Returns the manager and the write of that info.
    pub fn new(default_factors: F, material_info_size: u64) -> (r: (Self, PushPlan))
        requires
            PREALLOC_COUNT * material_info_size <= u64::MAX,
        ensures
            r.0.wf(),
            r.0.in_order().len() == 1,
            r.0.entries().len() == 1,
            r.0.entries()[r.0.default_key()] == r.0.in_order()[0],
            r.0.in_order()[0] matches Material::Pbr(m) && {
                &&& m.dirty
                &&& m.shader_id == 0
                &&& m.name matches Some(n) && n@ == "Default material"@
                &&& m.albedo_texture is None && m.metallic_roughness_texture is None && m.normal_texture is None
                &&& m.occlusion_texture is None && m.emissive_texture is None
                &&& m.factors == default_factors
            },
            r.0.buffer_state().label() matches Some(l) && l@ == "Material Buffer"@,
            r.0.buffer_state() == DynamicBufferArray::fresh(r.0.buffer_state().label(), material_info_size as nat).pushed(1),
            r.1 == DynamicBufferArray::fresh(r.0.buffer_state().label(), material_info_size as nat).push_plan(1),
    {
        broadcast use vstd::string::to_string_from_display_ensures_for_str;

        let pbr = PbrMaterial::from_default(None, default_factors);
        let label = "Material Buffer".to_string();
        let mut buffer = DynamicBufferArray::new(Some(label), material_info_size);
        let plan = buffer.push(1);
        let mut slots = slots_new();
        let key = slots_insert(&mut slots, 0);
        let mut materials: Vec<Material<F>> = Vec::new();
        materials.push(Material::Pbr(pbr));
        let r = MaterialManager { slots, materials, default_material: key, buffer };
        proof {
            let ids = slot_ids(r.slots);
            assert(ids.dom() =~= set![key]);
            assert(ids.len() == 1) by {
                vstd::set_lib::lemma_set_empty_equivalency_len(Set::<DefaultKey>::empty());
            }
            assert(ids.contains_key(key) && ids[key] == 0);
            assert forall|i: int| 0 <= i < r.materials@.len() implies #[trigger] has_slot(ids, i) by {
                assert(ids.contains_key(key) && ids[key] == i);
            }
            assert(r.entries().dom() =~= ids.dom());
            r.lemma_wf();
        }
        (r, plan)
    }

    /// Adds `material`; its shader id becomes the number of materials held
    /// before, and its info is appended to the material buffer. Returns its
    /// key and the write of its info.
    pub fn add_material(&mut self, material: Material<F>) -> (r: (DefaultKey, PushPlan))
        requires
            old(self).wf(),
            old(self).in_order().len() < u32::MAX - 1,
            old(self).buffer_state().can_push(1),
        ensures
            final(self).wf(),
            !old(self).entries().contains_key(r.0),
            final(self).entries() == old(self).entries().insert(
                r.0,
                material.with_shader_id(old(self).in_order().len() as u32),
            ),
            final(self).in_order() == old(self).in_order().push(
                material.with_shader_id(old(self).in_order().len() as u32),
            ),
            final(self).default_key() == old(self).default_key(),
            final(self).buffer_state() == old(self).buffer_state().pushed(1),
            r.1 == old(self).buffer_state().push_plan(1),
    {
        let ghost old_ids = slot_ids(self.slots);
        let ghost old_entries = self.entries();
        proof {
            self.lemma_wf();
            self.buffer.lemma_pushed(1);
        }
        let n = slots_len(&self.slots);
        let mut material = material;
        material.set_shader_id(n as u32);
        let plan = self.buffer.push(1);
        let k = slots_insert(&mut self.slots, n as u32);
        self.materials.push(material);
        proof {
            let ids = slot_ids(self.slots);
            assert(ids == old_ids.insert(k, n as u32));
            assert(ids.dom() == old_ids.dom().insert(k));
            assert forall|k1: DefaultKey, k2: DefaultKey|
                #[trigger] ids.contains_key(k1) && #[trigger] ids.contains_key(k2) && ids[k1] == ids[k2] implies k1
                == k2 by {
                if k1 != k && k2 != k {
                    assert(old_ids.contains_key(k1) && old_ids.contains_key(k2));
                } else if k1 == k && k2 != k {
                    assert(old_ids.contains_key(k2));
                } else if k1 != k && k2 == k {
                    assert(old_ids.contains_key(k1));
                }
            }
            assert forall|i: int| 0 <= i < self.materials@.len() implies #[trigger] has_slot(ids, i) by {
                if i < n {
                    assert(has_slot(old_ids, i));
                    let kk = choose|kk: DefaultKey| #[trigger] old_ids.contains_key(kk) && old_ids[kk] == i;
                    assert(ids.contains_key(kk) && ids[kk] == i);
                } else {
                    assert(ids.contains_key(k) && ids[k] == i);
                }
            }
            assert forall|i: int| 0 <= i < self.materials@.len() implies (#[trigger] self.materials@[i]).spec_shader_id()
                == i by {
                if i < n {
                    assert(self.materials@[i] == old(self).materials@[i]);
                }
            }
            assert(self.entries() =~= old_entries.insert(k, material)) by {
                assert forall|kk: DefaultKey| #[trigger] self.entries().contains_key(kk) && kk != k implies self.entries()[kk]
                    == old_entries[kk] by {
                    assert(old_ids.contains_key(kk));
                    assert(old_ids[kk] < n);
                }
            }
        }
        (k, plan)
    }

    /// The material stored under `id`.
    pub fn get_material(&self, id: DefaultKey) -> (r: &Material<F>)
        requires
            self.wf(),
            self.entries().contains_key(id),
        ensures
            *r == self.entries()[id],
    {
        let i = slots_get(&self.slots, id).unwrap();
        &self.materials[i as usize]
    }

    /// Whether `key` is the key of a material held.
    pub fn contains(&self, key: &DefaultKey) -> (r: bool)
        ensures
            r == self.entries().contains_key(*key),
    {
        slots_get(&self.slots, *key).is_some()
    }

    /// Whether one more material can be added (what `add_material`
    /// requires besides a well-formed manager).
    pub fn can_add(&self) -> (r: bool)
        ensures
            r == (self.in_order().len() < u32::MAX - 1 && self.buffer_state().can_push(1)),
    {
        proof {
            assert(pushes(self.buffer, 0) == self.buffer);
            assert(can_push_each(self.buffer, 0));
            assert(can_push_each(self.buffer, 1) == self.buffer.can_push(1));
        }
        self.materials.len() < u32::MAX as usize - 1 && self.buffer.can_push_each_exec(1)
    }

    /// Whether `k` more materials can have their infos appended to the
    /// material buffer, one by one (see `can_push_each`).
    pub fn can_add_each(&self, k: usize) -> (r: bool)
        ensures
            r == can_push_each(self.buffer_state(), k as nat),
    {
        self.buffer.can_push_each_exec(k)
    }

    /// The key of the material with shader id `shader_id`, if there is one.
    pub fn key_of_shader(&self, shader_id: u32) -> (r: Option<DefaultKey>)
        requires
            self.wf(),
        ensures
            r is Some <==> exists|k: DefaultKey|
                #[trigger] self.entries().contains_key(k) && self.entries()[k].spec_shader_id() == shader_id,
            r matches Some(k) ==> self.entries().contains_key(k) && self.entries()[k].spec_shader_id() == shader_id,
    {
        let all = self.iter_with_ids();
        let n = all.len();
        let mut i: usize = 0;
        while i < n
            invariant
                n == all@.len(),
                i <= n,
                forall|j: int|
                    0 <= j < n ==> self.entries().contains_key(#[trigger] all@[j].0) && *all@[j].1 == self.entries()[all@[j].0],
                forall|k: DefaultKey|
                    #[trigger] self.entries().contains_key(k) ==> exists|j: int| 0 <= j < n && #[trigger] all@[j].0 == k,
                forall|j: int| 0 <= j < i ==> (#[trigger] all@[j]).1.spec_shader_id() != shader_id,
            decreases n - i,
        {
            let (k, m) = all[i];
            proof {
                assert(self.entries().contains_key(all@[i as int].0));
            }
            if m.shader_id() == shader_id {
                return Some(k);
            }
            i += 1;
        }
        proof {
            assert forall|k: DefaultKey| #[trigger] self.entries().contains_key(k) implies self.entries()[k].spec_shader_id()
                != shader_id by {
                let j = choose|j: int| 0 <= j < n && #[trigger] all@[j].0 == k;
                assert(all@[j].1.spec_shader_id() != shader_id);
            }
        }
        None
    }

    /// The material every world starts with.
    pub fn get_default_material(&self) -> (r: &Material<F>)
        requires
            self.wf(),
        ensures
            *r == self.entries()[self.default_key()],
    {
        proof {
            self.lemma_wf();
        }
        self.get_material(self.default_material)
    }

    /// All materials, in the order they were added.
    pub fn iter(&self) -> (r: Vec<&Material<F>>)
        ensures
            r@.len() == self.in_order().len(),
            forall|i: int| 0 <= i < r@.len() ==> *#[trigger] r@[i] == self.in_order()[i],
    {
        let mut r: Vec<&Material<F>> = Vec::new();
        let n = self.materials.len();
        let mut i: usize = 0;
        while i < n
            invariant
                n == self.materials@.len(),
                i <= n,
                r@.len() == i,
                forall|j: int| 0 <= j < i ==> *#[trigger] r@[j] == self.materials@[j],
            decreases n - i,
        {
            r.push(&self.materials[i]);
            i += 1;
        }
        r
    }

    /// Every key with its material, each key once.
    pub fn iter_with_ids(&self) -> (r: Vec<(DefaultKey, &Material<F>)>)
        requires
            self.wf(),
        ensures
            r@.len() == self.entries().len(),
            forall|i: int|
                0 <= i < r@.len() ==> self.entries().contains_key(#[trigger] r@[i].0) && *r@[i].1 == self.entries()[r@[i].0],
            forall|k: DefaultKey|
                #[trigger] self.entries().contains_key(k) ==> exists|i: int| 0 <= i < r@.len() && #[trigger] r@[i].0 == k,
            forall|i: int, j: int| 0 <= i < j < r@.len() ==> r@[i].0 != r@[j].0,
    {
        let entries = slots_entries(&self.slots);
        let ghost ids = slot_ids(self.slots);
        proof {
            assert(self.entries().dom() =~= ids.dom());
        }
        let mut r: Vec<(DefaultKey, &Material<F>)> = Vec::new();
        let n = entries.len();
        let mut i: usize = 0;
        while i < n
            invariant
                self.wf(),
                ids == slot_ids(self.slots),
                n == entries@.len(),
                n == ids.len(),
                forall|j: int| 0 <= j < n ==> ids.contains_key(#[trigger] entries@[j].0) && ids[entries@[j].0] == entries@[j].1,
                i <= n,
                r@.len() == i,
                forall|j: int|
                    0 <= j < i ==> (#[trigger] r@[j]).0 == entries@[j].0 && *r@[j].1 == self.entries()[entries@[j].0],
            decreases n - i,
        {
            let (k, pos) = entries[i];
            proof {
                assert(ids.contains_key(entries@[i as int].0));
            }
            r.push((k, &self.materials[pos as usize]));
            i += 1;
        }
        proof {
            assert forall|k: DefaultKey| #[trigger] self.entries().contains_key(k) implies exists|i: int|
                0 <= i < r@.len() && #[trigger] r@[i].0 == k by {
                assert(ids.contains_key(k));
                let i = choose|i: int| 0 <= i < entries@.len() && #[trigger] entries@[i].0 == k;
                assert(r@[i].0 == k);
            }
        }
        r
    }

    /// Marks every dirty material up to date and returns, in order, the
    /// rewrites of their infos in the material buffer.
    pub fn update_dirty(&mut self) -> (ops: Vec<MaterialWrite>)
        requires
            old(self).wf(),
            old(self).buffer_state().count() * old(self).buffer_state().elem_size() <= u64::MAX,
        ensures
            final(self).wf(),
            final(self).default_key() == old(self).default_key(),
            final(self).buffer_state() == old(self).buffer_state(),
            final(self).in_order().len() == old(self).in_order().len(),
            forall|i: int|
                0 <= i < old(self).in_order().len() ==> #[trigger] final(self).in_order()[i] == old(self).in_order()[i].cleaned(),
            forall|k: DefaultKey|
                #[trigger] old(self).entries().contains_key(k) ==> final(self).entries().contains_key(k)
                    && final(self).entries()[k] == old(self).entries()[k].cleaned(),
            final(self).entries().dom() == old(self).entries().dom(),
            ops@ == dirty_writes(old(self).in_order(), old(self).buffer_state().elem_size()),
    {
        let ghost old_ms = self.materials@;
        let ghost es = self.buffer.elem_size();
        let mut ops: Vec<MaterialWrite> = Vec::new();
        let n = self.materials.len();
        let mut i: usize = 0;
        while i < n
            invariant
                n == old_ms.len(),
                i <= n,
                self.materials@.len() == n,
                self.slots == old(self).slots,
                self.default_material == old(self).default_material,
                self.buffer == old(self).buffer,
                es == self.buffer.elem_size(),
                self.buffer.count() == n,
                n * es <= u64::MAX,
                forall|k: int| 0 <= k < n ==> (#[trigger] old_ms[k]).spec_shader_id() == k,
                forall|k: int| 0 <= k < i ==> #[trigger] self.materials@[k] == old_ms[k].cleaned(),
                forall|k: int| i <= k < n ==> #[trigger] self.materials@[k] == old_ms[k],
                ops@ == dirty_writes(old_ms.take(i as int), es),
            decreases n - i,
        {
            proof {
                assert(old_ms.take(i + 1).drop_last() =~= old_ms.take(i as int));
                assert(old_ms.take(i + 1).last() == old_ms[i as int]);
                assert(self.materials@[i as int] == old_ms[i as int]);
                assert(old_ms[i as int].spec_shader_id() == i);
                assert(i * es <= n * es) by (nonlinear_arith)
                    requires
                        i <= n,
                ;
            }
            if self.materials[i].dirty() {
                let mat_id = self.materials[i].shader_id();
                let offset = self.buffer.update(mat_id as u64);
                ops.push(MaterialWrite { shader_id: mat_id, offset });
                match &mut self.materials[i] {
                    Material::Pbr(m) => m.dirty = false,
                }
            }
            i += 1;
        }
        proof {
            assert(old_ms.take(n as int) =~= old_ms);
            let ids = slot_ids(self.slots);
            assert forall|k: int| 0 <= k < self.materials@.len() implies (#[trigger] self.materials@[k]).spec_shader_id()
                == k by {
                assert(self.materials@[k] == old_ms[k].cleaned());
            }
            assert(self.entries().dom() =~= old(self).entries().dom());
        }
        ops
    }
}

} // verus!
