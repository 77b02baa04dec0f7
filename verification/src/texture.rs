use crate::slots::{slot_ids, slots_entries, slots_get, slots_insert, slots_len, slots_new, IdSlots};
use slotmap::DefaultKey;
use vstd::prelude::*;

verus! {

/// What a texture is used for in a material.
#[derive(Debug, Clone, Copy, PartialEq, Eq, Structural)]
pub enum TextureKind {
    Albedo,
    Normal,
    MetalRoughness,
    Occlusion,
    Emission,
    Depth,
    Other,
}

/// A texture known to the renderer: its shader-side id (once it was added
/// to a manager), its name and kind, and the GPU handles `D` (view and
/// sampler) that only the renderer reads.
#[derive(Debug)]
pub struct Texture<D> {
    pub id: Option<u32>,
    pub name: Option<String>,
    pub kind: TextureKind,
    pub data: D,
}

/// The textures of a world, each under a key handed out when it was added.
/// Two of them stand in for textures a material does not name.
#[derive(Debug)]
pub struct TextureManager<D> {
    slots: IdSlots,
    textures: Vec<Texture<D>>,
    default_albedo: DefaultKey,
    default_normal: DefaultKey,
}

/// Some key is sent to position `i`.
pub open spec fn has_slot(ids: Map<DefaultKey, u32>, i: int) -> bool {
    exists|k: DefaultKey| #[trigger] ids.contains_key(k) && ids[k] == i
}

/// The texture `t` as stored by `add_texture` when `n` textures were held.
pub open spec fn numbered<D>(t: Texture<D>, n: nat) -> Texture<D> {
    Texture { id: Some(n as u32), ..t }
}

impl<D> TextureManager<D> {
    /// The slot map sends the keys one to one onto the positions of the
    /// stored textures, and the two default keys are among them.
    pub closed spec fn wf(&self) -> bool {
        let ids = slot_ids(self.slots);
        &&& ids.dom().finite()
        &&& ids.len() == self.textures@.len()
        &&& forall|k: DefaultKey| #[trigger] ids.contains_key(k) ==> ids[k] < self.textures@.len()
        &&& forall|k1: DefaultKey, k2: DefaultKey|
            #[trigger] ids.contains_key(k1) && #[trigger] ids.contains_key(k2) && ids[k1] == ids[k2] ==> k1 == k2
        &&& forall|i: int| 0 <= i < self.textures@.len() ==> #[trigger] has_slot(ids, i)
        &&& ids.contains_key(self.default_albedo)
        &&& ids.contains_key(self.default_normal)
    }

    /// Key to texture.
    pub closed spec fn entries(&self) -> Map<DefaultKey, Texture<D>> {
        Map::new(
            |k: DefaultKey| slot_ids(self.slots).contains_key(k),
            |k: DefaultKey| self.textures@[slot_ids(self.slots)[k] as int],
        )
    }

    /// The textures in the order they were added.
    pub closed spec fn in_order(&self) -> Seq<Texture<D>> {
        self.textures@
    }

    /// The key of the texture that stands in for a missing one of `kind`:
    /// the default normal map for normals, the default albedo otherwise.
    pub closed spec fn default_key(&self, kind: TextureKind) -> DefaultKey {
        match kind {
            TextureKind::Normal => self.default_normal,
            _ => self.default_albedo,
        }
    }

    /// A manager holding `textures`, in order, each numbered by its
    /// position (see `numbered`): the first is the default albedo texture,
    /// the second the default normal map. None exactly when there are fewer
    /// than two textures or too many to number.
    #[verifier::loop_isolation(false)]
    pub fn from_loaded(textures: Vec<Texture<D>>) -> (o: Option<Self>)
        ensures
            o is Some <==> 2 <= textures@.len() < u32::MAX - 1,
            o matches Some(m) ==> {
                &&& m.wf()
                &&& m.in_order().len() == textures@.len()
                &&& forall|i: int| 0 <= i < textures@.len() ==> #[trigger] m.in_order()[i] == numbered(textures@[i], i as nat)
                &&& m.entries()[m.default_key(TextureKind::Albedo)] == numbered(textures@[0], 0)
                &&& m.entries()[m.default_key(TextureKind::Normal)] == numbered(textures@[1], 1)
            },
    {
        let ghost all = textures@;
        let n = textures.len();
        if n < 2 || n >= u32::MAX as usize - 1 {
            return None;
        }
        let mut rest = textures;
        let mut albedo = rest.remove(0);
        albedo.id = Some(0);
        let mut normal = rest.remove(0);
        normal.id = Some(1);
        let mut manager = TextureManager::new(albedo, normal);
        proof {
            assert(rest@ =~= all.subrange(2, n as int));
        }
        let mut k: usize = 2;
        while k < n
            invariant
                n == all.len(),
                2 <= k <= n,
                n < u32::MAX - 1,
                rest@ == all.subrange(k as int, n as int),
                manager.wf(),
                manager.in_order().len() == k,
                forall|i: int| 0 <= i < k ==> #[trigger] manager.in_order()[i] == numbered(all[i], i as nat),
                manager.entries()[manager.default_key(TextureKind::Albedo)] == numbered(all[0], 0),
                manager.entries()[manager.default_key(TextureKind::Normal)] == numbered(all[1], 1),
            decreases n - k,
        {
            let t = rest.remove(0);
            proof {
                assert(t == all[k as int]);
                assert(rest@ =~= all.subrange(k + 1, n as int));
                manager.lemma_wf();
            }
            let ghost before = manager;
            manager.add_texture(t);
            proof {
                assert forall|i: int| 0 <= i < k + 1 implies #[trigger] manager.in_order()[i] == numbered(all[i], i as nat) by {
                    if i < k {
                        assert(manager.in_order()[i] == before.in_order()[i]);
                    }
                }
                assert(manager.entries()[manager.default_key(TextureKind::Albedo)] == before.entries()[before.default_key(
                    TextureKind::Albedo,
                )]);
                assert(manager.entries()[manager.default_key(TextureKind::Normal)] == before.entries()[before.default_key(
                    TextureKind::Normal,
                )]);
            }
            k += 1;
        }
        Some(manager)
    }

    /// Whether `key` is the key of a texture held.
    pub fn contains(&self, key: &DefaultKey) -> (r: bool)
        ensures
            r == self.entries().contains_key(*key),
    {
        slots_get(&self.slots, *key).is_some()
    }

    /// The key of the texture with id `id`, if there is one.
    pub fn key_of_id(&self, id: u32) -> (r: Option<DefaultKey>)
        requires
            self.wf(),
        ensures
            r is Some <==> exists|k: DefaultKey|
                #[trigger] self.entries().contains_key(k) && self.entries()[k].id == Some(id),
            r matches Some(k) ==> self.entries().contains_key(k) && self.entries()[k].id == Some(id),
    {
        let all = self.iter_with_ids();
        let n = all.len();
        let mut i: usize = 0;
        while i < n
            invariant
                n == all@.len(),
                i <= n,
                forall|j: int|
                    0 <= j < n ==> self.entries().contains_key(#[trigger] all@[j].0) && *all@[j].1 == self.entries()[all@[j].0],
                forall|k: DefaultKey|
                    #[trigger] self.entries().contains_key(k) ==> exists|j: int| 0 <= j < n && #[trigger] all@[j].0 == k,
                forall|j: int| 0 <= j < i ==> (#[trigger] all@[j]).1.id != Some(id),
            decreases n - i,
        {
            let (k, t) = all[i];
            proof {
                assert(self.entries().contains_key(all@[i as int].0));
            }
            if t.id == Some(id) {
                return Some(k);
            }
            i += 1;
        }
        proof {
            assert forall|k: DefaultKey| #[trigger] self.entries().contains_key(k) implies self.entries()[k].id != Some(id) by {
                let j = choose|j: int| 0 <= j < n && #[trigger] all@[j].0 == k;
                assert(all@[j].1.id != Some(id));
            }
        }
        None
    }

    /// Normal maps fall back to the default normal texture; every other
    /// kind of texture falls back to the default albedo texture.
    pub proof fn lemma_default_key(&self)
        ensures
            forall|kind: TextureKind|
                !(kind is Normal) ==> #[trigger] self.default_key(kind) == self.default_key(TextureKind::Albedo),
    {
    }

    /// A named texture wins over the default, whatever the kind: the
    /// default of the kind stands in only where no texture is named.
    pub proof fn lemma_chosen(&self, key: Option<DefaultKey>, kind: TextureKind)
        ensures
            key matches Some(k) ==> self.chosen(key, kind) == self.entries()[k],
            key is None ==> self.chosen(key, kind) == self.entries()[self.default_key(kind)],
    {
    }

    /// The texture that `unwrap_default` picks.
    pub open spec fn chosen(&self, key: Option<DefaultKey>, kind: TextureKind) -> Texture<D> {
        match key {
            Some(k) => self.entries()[k],
            None => self.entries()[self.default_key(kind)],
        }
    }

    /// What a well-formed manager satisfies: the defaults are stored, every
    /// key leads to a texture, and there are as many keys as textures.
    pub proof fn lemma_wf(&self)
        requires
            self.wf(),
        ensures
            self.entries().dom().finite(),
            self.entries().len() == self.in_order().len(),
            self.entries().contains_key(self.default_key(TextureKind::Albedo)),
            self.entries().contains_key(self.default_key(TextureKind::Normal)),
            forall|kind: TextureKind| self.entries().contains_key(#[trigger] self.default_key(kind)),
            forall|k: DefaultKey| #[trigger] self.entries().contains_key(k) ==> self.in_order().contains(self.entries()[k]),
            forall|i: int|
                #![trigger self.in_order()[i]]
                0 <= i < self.in_order().len() ==> exists|k: DefaultKey|
                    #[trigger] self.entries().contains_key(k) && self.entries()[k] == self.in_order()[i],
    {
        let ids = slot_ids(self.slots);
        assert(self.entries().dom() =~= ids.dom());
        assert forall|k: DefaultKey| #[trigger] self.entries().contains_key(k) implies self.in_order().contains(
            self.entries()[k],
        ) by {
            assert(self.in_order()[ids[k] as int] == self.entries()[k]);
        }
        assert forall|i: int|
            #![trigger self.in_order()[i]]
            0 <= i < self.in_order().len() implies exists|k: DefaultKey|
            #[trigger] self.entries().contains_key(k) && self.entries()[k] == self.in_order()[i] by {
            assert(has_slot(ids, i));
            let k = choose|k: DefaultKey| #[trigger] ids.contains_key(k) && ids[k] == i;
            assert(self.entries().contains_key(k) && self.entries()[k] == self.in_order()[i]);
        }
    }

    /// A manager holding the default albedo texture and the default normal
    /// map, under the default keys.
    pub fn new(default_albedo: Texture<D>, default_normal: Texture<D>) -> (r: Self)
        ensures
            r.wf(),
            r.in_order() == seq![default_albedo, default_normal],
            r.entries().len() == 2,
            r.entries()[r.default_key(TextureKind::Albedo)] == default_albedo,
            r.entries()[r.default_key(TextureKind::Normal)] == default_normal,
    {
        let mut slots = slots_new();
        let mut textures: Vec<Texture<D>> = Vec::new();
        let albedo_key = slots_insert(&mut slots, 0);
        textures.push(default_albedo);
        let normal_key = slots_insert(&mut slots, 1);
        textures.push(default_normal);
        let r = TextureManager { slots, textures, default_albedo: albedo_key, default_normal: normal_key };
        proof {
            let ids = slot_ids(r.slots);
            assert(ids.dom() =~= set![albedo_key, normal_key]);
            assert(ids.len() == 2) by {
                vstd::set_lib::lemma_set_empty_equivalency_len(Set::<DefaultKey>::empty());
            }
            assert(ids.contains_key(albedo_key) && ids[albedo_key] == 0);
            assert forall|i: int| 0 <= i < r.textures@.len() implies #[trigger] has_slot(ids, i) by {
                if i == 0 {
                    assert(ids.contains_key(albedo_key) && ids[albedo_key] == i);
                } else {
                    assert(ids.contains_key(normal_key) && ids[normal_key] == i);
                }
            }
            assert(r.entries().dom() =~= ids.dom());
            assert(r.in_order() =~= seq![default_albedo, default_normal]);
        }
        r
    }

    /// Adds `texture`; its id becomes the number of textures held before.
    /// Returns the key it is stored under.
    pub fn add_texture(&mut self, texture: Texture<D>) -> (k: DefaultKey)
        requires
            old(self).wf(),
            old(self).in_order().len() < u32::MAX - 1,
        ensures
            final(self).wf(),
            !old(self).entries().contains_key(k),
            final(self).entries() == old(self).entries().insert(k, numbered(texture, old(self).in_order().len())),
            final(self).in_order() == old(self).in_order().push(numbered(texture, old(self).in_order().len())),
            forall|kind: TextureKind| final(self).default_key(kind) == old(self).default_key(kind),
    {
        let ghost old_ids = slot_ids(self.slots);
        let ghost old_entries = self.entries();
        proof {
            self.lemma_wf();
        }
        let n = slots_len(&self.slots);
        let mut texture = texture;
        texture.id = Some(n as u32);
        let k = slots_insert(&mut self.slots, n as u32);
        self.textures.push(texture);
        proof {
            let ids = slot_ids(self.slots);
            assert(ids == old_ids.insert(k, n as u32));
            assert(ids.dom() == old_ids.dom().insert(k));
            assert forall|k1: DefaultKey, k2: DefaultKey|
                #[trigger] ids.contains_key(k1) && #[trigger] ids.contains_key(k2) && ids[k1] == ids[k2] implies k1
                == k2 by {
                if k1 != k && k2 != k {
                    assert(old_ids.contains_key(k1) && old_ids.contains_key(k2));
                } else if k1 == k && k2 != k {
                    assert(old_ids.contains_key(k2));
                } else if k1 != k && k2 == k {
                    assert(old_ids.contains_key(k1));
                }
            }
            assert forall|i: int| 0 <= i < self.textures@.len() implies #[trigger] has_slot(ids, i) by {
                if i < n {
                    assert(has_slot(old_ids, i));
                    let kk = choose|kk: DefaultKey| #[trigger] old_ids.contains_key(kk) && old_ids[kk] == i;
                    assert(ids.contains_key(kk) && ids[kk] == i);
                } else {
                    assert(ids.contains_key(k) && ids[k] == i);
                }
            }
            assert(self.entries() =~= old_entries.insert(k, numbered(texture, n as nat))) by {
                assert forall|kk: DefaultKey| #[trigger] self.entries().contains_key(kk) && kk != k implies self.entries()[kk]
                    == old_entries[kk] by {
                    assert(old_ids.contains_key(kk));
                    assert(old_ids[kk] < n);
                }
            }
        }
        k
    }

    /// The texture stored under `id`.
    pub fn get_texture(&self, id: &DefaultKey) -> (r: &Texture<D>)
        requires
            self.wf(),
            self.entries().contains_key(*id),
        ensures
            *r == self.entries()[*id],
    {
        let i = slots_get(&self.slots, *id).unwrap();
        &self.textures[i as usize]
    }

    /// All textures, in the order they were added.
    pub fn iter(&self) -> (r: Vec<&Texture<D>>)
        ensures
            r@.len() == self.in_order().len(),
            forall|i: int| 0 <= i < r@.len() ==> *#[trigger] r@[i] == self.in_order()[i],
    {
        let mut r: Vec<&Texture<D>> = Vec::new();
        let n = self.textures.len();
        let mut i: usize = 0;
        while i < n
            invariant
                n == self.textures@.len(),
                i <= n,
                r@.len() == i,
                forall|j: int| 0 <= j < i ==> *#[trigger] r@[j] == self.textures@[j],
            decreases n - i,
        {
            r.push(&self.textures[i]);
            i += 1;
        }
        r
    }

    /// Every key with its texture, each key once.
    pub fn iter_with_ids(&self) -> (r: Vec<(DefaultKey, &Texture<D>)>)
        requires
            self.wf(),
        ensures
            r@.len() == self.entries().len(),
            forall|i: int|
                0 <= i < r@.len() ==> self.entries().contains_key(#[trigger] r@[i].0) && *r@[i].1 == self.entries()[r@[i].0],
            forall|k: DefaultKey|
                #[trigger] self.entries().contains_key(k) ==> exists|i: int| 0 <= i < r@.len() && #[trigger] r@[i].0 == k,
            forall|i: int, j: int| 0 <= i < j < r@.len() ==> r@[i].0 != r@[j].0,
    {
        let entries = slots_entries(&self.slots);
        let ghost ids = slot_ids(self.slots);
        proof {
            assert(self.entries().dom() =~= ids.dom());
        }
        let mut r: Vec<(DefaultKey, &Texture<D>)> = Vec::new();
        let n = entries.len();
        let mut i: usize = 0;
        while i < n
            invariant
                self.wf(),
                ids == slot_ids(self.slots),
                n == entries@.len(),
                n == ids.len(),
                forall|j: int| 0 <= j < n ==> ids.contains_key(#[trigger] entries@[j].0) && ids[entries@[j].0] == entries@[j].1,
                i <= n,
                r@.len() == i,
                forall|j: int|
                    0 <= j < i ==> (#[trigger] r@[j]).0 == entries@[j].0 && *r@[j].1 == self.entries()[entries@[j].0],
            decreases n - i,
        {
            let (k, pos) = entries[i];
            proof {
                assert(ids.contains_key(entries@[i as int].0));
            }
            r.push((k, &self.textures[pos as usize]));
            i += 1;
        }
        proof {
            assert forall|k: DefaultKey| #[trigger] self.entries().contains_key(k) implies exists|i: int|
                0 <= i < r@.len() && #[trigger] r@[i].0 == k by {
                assert(ids.contains_key(k));
                let i = choose|i: int| 0 <= i < entries@.len() && #[trigger] entries@[i].0 == k;
                assert(r@[i].0 == k);
            }
        }
        r
    }

    /// The texture that stands in for a missing one of `texture_kind`.
    pub fn default_tex(&self, texture_kind: TextureKind) -> (r: &Texture<D>)
        requires
            self.wf(),
        ensures
            *r == self.entries()[self.default_key(texture_kind)],
            !(texture_kind is Normal) ==> *r == self.entries()[self.default_key(TextureKind::Albedo)],
    {
        let key = match texture_kind {
            TextureKind::Normal => self.default_normal,
            _ => self.default_albedo,
        };
        proof {
            self.lemma_wf();
        }
        self.get_texture(&key)
    }

    /// The texture stored under `tex_id`, or the default one of
    /// `texture_kind` when there is no key.
    pub fn unwrap_default(&self, tex_id: &Option<DefaultKey>, texture_kind: TextureKind) -> (r: &Texture<D>)
        requires
            self.wf(),
            *tex_id matches Some(k) ==> self.entries().contains_key(k),
        ensures
            *r == self.chosen(*tex_id, texture_kind),
            *tex_id matches Some(k) ==> *r == self.entries()[k],
            tex_id is None ==> *r == self.entries()[self.default_key(texture_kind)],
    {
        match tex_id {
            Some(k) => self.get_texture(k),
            None => self.default_tex(texture_kind),
        }
    }
}

} // verus!
