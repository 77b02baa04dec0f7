use vstd::prelude::*;
use vstd::string::*;
use crate::random_id;
use crate::scene::light::PointLight;
use crate::scene::mesh::Mesh;

verus! {

/// A node of the scene graph: meshes, child models, an optional light and
/// the transform data `T` (local transform and scale).
#[derive(Debug)]
pub struct Model<G, L, T> {
    pub id: u32,
    pub meshes: Vec<Mesh<G>>,
    pub children: Vec<Model<G, L, T>>,
    pub name: Option<String>,
    pub transform: T,
    pub light: Option<PointLight<L>>,
}

impl<G, L, T> Model<G, L, T> {
    /// A new model with a random id.
    pub fn from(
        meshes: Vec<Mesh<G>>,
        name: Option<String>,
        children: Vec<Model<G, L, T>>,
        transform: T,
        light: Option<PointLight<L>>,
    ) -> (r: Self)
        ensures
            r.id < 0x8000_0000,
            r.meshes == meshes,
            r.name == name,
            r.children == children,
            r.transform == transform,
            r.light == light,
    {
        Model { id: random_id(), meshes, name, children, transform, light }
    }
}

/// The transform `compose` gives for `parent` followed by `local`.
pub open spec fn composed<T, FC>(compose: FC, parent: T, local: T) -> T where FC: Fn(&T, &T) -> T {
    choose|t: T| compose.ensures((&parent, &local), t)
}

/// `compose` gives one result for each pair of transforms.
pub open spec fn functional<T, FC>(compose: FC) -> bool where FC: Fn(&T, &T) -> T {
    forall|p: &T, t: &T, r1: T, r2: T|
        #[trigger] compose.ensures((p, t), r1) && #[trigger] compose.ensures((p, t), r2) ==> r1 == r2
}

/// `new` is `old` after `update_transforms(parent, ..)`: every mesh got
/// the data `place_mesh` gives for the parent transform, the model's own
/// transform and the mesh's data, and is due for an upload; the light got
/// what `place_light` gives likewise and is due for an upload; every child
/// was updated in the same way with the parent transform composed with the
/// model's own (`compose`) as its parent.
pub open spec fn placed<G, L, T, FM, FL, FC>(
    old: Model<G, L, T>,
    new: Model<G, L, T>,
    parent: T,
    place_mesh: FM,
    place_light: FL,
    compose: FC,
) -> bool where FM: Fn(&T, &T, &G) -> G, FL: Fn(&T, &T, &L) -> L, FC: Fn(&T, &T) -> T
    decreases old,
{
    &&& new.id == old.id
    &&& new.name == old.name
    &&& new.transform == old.transform
    &&& new.meshes@.len() == old.meshes@.len()
    &&& forall|i: int|
        0 <= i < old.meshes@.len() ==> {
            &&& (#[trigger] new.meshes@[i]).id == old.meshes@[i].id
            &&& new.meshes@[i].dirty
            &&& place_mesh.ensures((&parent, &old.transform, &old.meshes@[i].data), new.meshes@[i].data)
        }
    &&& match old.light {
        Some(l) => new.light matches Some(nl) && nl.dirty && nl.index == l.index && place_light.ensures(
            (&parent, &old.transform, &l.data),
            nl.data,
        ),
        None => new.light is None,
    }
    &&& forest_placed(
        old.children@,
        new.children@,
        composed(compose, parent, old.transform),
        place_mesh,
        place_light,
        compose,
    )
}

/// The models `new` are the models `old` after `update_transforms(parent, ..)`.
pub open spec fn forest_placed<G, L, T, FM, FL, FC>(
    old: Seq<Model<G, L, T>>,
    new: Seq<Model<G, L, T>>,
    parent: T,
    place_mesh: FM,
    place_light: FL,
    compose: FC,
) -> bool where FM: Fn(&T, &T, &G) -> G, FL: Fn(&T, &T, &L) -> L, FC: Fn(&T, &T) -> T
    decreases old,
{
    &&& old.len() == new.len()
    &&& old.len() > 0 ==> {
        &&& forest_placed(old.drop_last(), new.drop_last(), parent, place_mesh, place_light, compose)
        &&& placed(old.last(), new.last(), parent, place_mesh, place_light, compose)
    }
}

/// The name of a copy of a model named `name`: the name (empty when there
/// is none) followed by " duplicate".
pub open spec fn duplicate_name_of(name: Option<String>) -> Seq<char> {
    match name {
        Some(n) => n@ + " duplicate"@,
        None => " duplicate"@,
    }
}

/// The first model with id `id` in the deep walk of `ms`.
pub open spec fn first_deep<G, L, T>(ms: Seq<Model<G, L, T>>, id: u32) -> Model<G, L, T> {
    deep_order(ms)[choose|k: int| first_with_id(deep_order(ms), id, k)]
}

/// `copy` is a duplicate of `m`: fresh dirty meshes holding what
/// `copy_data` gives for the data of `m`'s meshes, the name
/// `duplicate_name_of(m.name)`, a copy of its transform, no children and
/// no light.
pub open spec fn duplicate_of<G, L, T: Clone, FD>(m: Model<G, L, T>, copy: Model<G, L, T>, copy_data: FD) -> bool where
    FD: Fn(&G) -> G,
 {
    &&& copy.meshes@.len() == m.meshes@.len()
    &&& forall|j: int|
        0 <= j < m.meshes@.len() ==> {
            &&& (#[trigger] copy.meshes@[j]).dirty
            &&& copy_data.ensures((&m.meshes@[j].data,), copy.meshes@[j].data)
        }
    &&& copy.name matches Some(n) && n@ == duplicate_name_of(m.name)
    &&& copy.children@.len() == 0
    &&& cloned(m.transform, copy.transform)
    &&& copy.light is None
}

impl<G, L, T> Model<G, L, T> {
    /// The name a duplicate of this model gets.
    pub fn duplicate_name(&self) -> (r: String)
        ensures
            r@ == duplicate_name_of(self.name),
    {
        let mut r = match &self.name {
            Some(n) => n.clone(),
            None => String::new(),
        };
        r.append(" duplicate");
        proof {
            assert(Seq::<char>::empty() + " duplicate"@ =~= " duplicate"@);
        }
        r
    }

    /// A duplicate of this model (see `duplicate_of`), with a random id,
    /// its meshes' data copied by `copy_data`.
    pub fn duplicate<FD>(&self, copy_data: &FD) -> (r: Self) where T: Clone, FD: Fn(&G) -> G
        requires
            forall|g: &G| #[trigger] copy_data.requires((g,)),
        ensures
            duplicate_of(*self, r, *copy_data),
            r.id < 0x8000_0000,
    {
        let mut meshes: Vec<Mesh<G>> = Vec::new();
        let n = self.meshes.len();
        let mut i: usize = 0;
        while i < n
            invariant
                n == self.meshes@.len(),
                i <= n,
                meshes@.len() == i,
                forall|g: &G| #[trigger] copy_data.requires((g,)),
                forall|j: int|
                    0 <= j < i ==> {
                        &&& (#[trigger] meshes@[j]).dirty
                        &&& copy_data.ensures((&self.meshes@[j].data,), meshes@[j].data)
                    },
            decreases n - i,
        {
            let data = copy_data(&self.meshes[i].data);
            let mesh = Mesh::from(data);
            meshes.push(mesh);
            i += 1;
        }
        let name = self.duplicate_name();
        let transform = self.transform.clone();
        Model::from(meshes, Some(name), Vec::new(), transform, None)
    }

    /// Recomputes the placement data of the model's meshes and light from
    /// the `parent` transform and the model's own, marking them for an
    /// upload, then does the same for each child with the parent transform
    /// composed with the model's own as the child's parent.
    pub fn update_transforms<FM, FL, FC>(&mut self, parent: &T, place_mesh: &FM, place_light: &FL, compose: &FC)
        where FM: Fn(&T, &T, &G) -> G, FL: Fn(&T, &T, &L) -> L, FC: Fn(&T, &T) -> T
        requires
            forall|p: &T, t: &T, g: &G| #[trigger] place_mesh.requires((p, t, g)),
            forall|p: &T, t: &T, l: &L| #[trigger] place_light.requires((p, t, l)),
            forall|p: &T, t: &T| #[trigger] compose.requires((p, t)),
            functional(*compose),
        ensures
            placed(*old(self), *final(self), *parent, *place_mesh, *place_light, *compose),
        decreases *old(self),
    {
        let ghost start = *self;
        let child_parent = compose(parent, &self.transform);
        proof {
            assert(compose.ensures((parent, &start.transform), child_parent));
            let c = composed(*compose, *parent, start.transform);
            assert(compose.ensures((parent, &start.transform), c));
            assert(c == child_parent);
        }
        let n = self.meshes.len();
        let mut i: usize = 0;
        while i < n
            invariant
                n == start.meshes@.len(),
                i <= n,
                self.id == start.id,
                self.name == start.name,
                self.transform == start.transform,
                self.light == start.light,
                self.children == start.children,
                self.meshes@.len() == n,
                forall|p: &T, t: &T, g: &G| #[trigger] place_mesh.requires((p, t, g)),
                forall|j: int|
                    0 <= j < i ==> {
                        &&& (#[trigger] self.meshes@[j]).id == start.meshes@[j].id
                        &&& self.meshes@[j].dirty
                        &&& place_mesh.ensures((parent, &start.transform, &start.meshes@[j].data), self.meshes@[j].data)
                    },
                forall|j: int| i <= j < n ==> #[trigger] self.meshes@[j] == start.meshes@[j],
            decreases n - i,
        {
            let data = place_mesh(parent, &self.transform, &self.meshes[i].data);
            self.meshes[i].data = data;
            self.meshes[i].dirty = true;
            i += 1;
        }
        let m = self.children.len();
        let mut k: usize = 0;
        while k < m
            invariant
                m == start.children@.len(),
                k <= m,
                self.id == start.id,
                self.name == start.name,
                self.transform == start.transform,
                self.light == start.light,
                self.meshes@.len() == start.meshes@.len(),
                forall|j: int|
                    0 <= j < start.meshes@.len() ==> {
                        &&& (#[trigger] self.meshes@[j]).id == start.meshes@[j].id
                        &&& self.meshes@[j].dirty
                        &&& place_mesh.ensures((parent, &start.transform, &start.meshes@[j].data), self.meshes@[j].data)
                    },
                self.children@.len() == m,
                start == *old(self),
                forall|p: &T, t: &T, g: &G| #[trigger] place_mesh.requires((p, t, g)),
                forall|p: &T, t: &T, l: &L| #[trigger] place_light.requires((p, t, l)),
                forall|p: &T, t: &T| #[trigger] compose.requires((p, t)),
                functional(*compose),
                child_parent == composed(*compose, *parent, start.transform),
                forest_placed(
                    start.children@.take(k as int),
                    self.children@.take(k as int),
                    child_parent,
                    *place_mesh,
                    *place_light,
                    *compose,
                ),
                forall|j: int| k <= j < m ==> #[trigger] self.children@[j] == start.children@[j],
            decreases m - k,
        {
            proof {
                assert(decreases_to!(start => start.children));
                assert(decreases_to!(start.children => start.children@));
                assert(decreases_to!(start.children@ => start.children@[k as int]));
            }
            let ghost before = self.children@;
            self.children[k].update_transforms(&child_parent, place_mesh, place_light, compose);
            proof {
                let o = start.children@.take(k + 1);
                let nn = self.children@.take(k + 1);
                assert(o.drop_last() =~= start.children@.take(k as int));
                assert(nn.drop_last() =~= before.take(k as int));
                assert(o.last() == start.children@[k as int]);
                assert(nn.last() == self.children@[k as int]);
                assert forall|j: int| k < j < m implies #[trigger] self.children@[j] == start.children@[j] by {
                    assert(self.children@[j] == before[j]);
                }
            }
            k += 1;
        }
        proof {
            assert(start.children@.take(m as int) =~= start.children@);
            assert(self.children@.take(m as int) =~= self.children@);
        }
        match &mut self.light {
            Some(l) => {
                let data = place_light(parent, &self.transform, &l.data);
                l.data = data;
                l.dirty = true;
            },
            None => {},
        }
    }
}

/// Whether a model with id `id` occurs anywhere in the forest `ms`.
pub open spec fn forest_contains<G, L, T>(ms: Seq<Model<G, L, T>>, id: u32) -> bool
    decreases ms,
{
    if ms.len() == 0 {
        false
    } else {
        forest_contains(ms.drop_last(), id) || tree_contains(ms.last(), id)
    }
}

/// Whether `m` or one of its descendants has id `id`.
pub open spec fn tree_contains<G, L, T>(m: Model<G, L, T>, id: u32) -> bool
    decreases m,
{
    m.id == id || forest_contains(m.children@, id)
}


/// A forest holds `id` exactly when one of its trees does.
pub proof fn lemma_forest_contains<G, L, T>(ms: Seq<Model<G, L, T>>, id: u32)
    ensures
        forest_contains(ms, id) <==> exists|i: int| 0 <= i < ms.len() && #[trigger] tree_contains(ms[i], id),
    decreases ms.len(),
{
    if ms.len() > 0 {
        let init = ms.drop_last();
        lemma_forest_contains(init, id);
        if forest_contains(init, id) {
            let i = choose|i: int| 0 <= i < init.len() && #[trigger] tree_contains(init[i], id);
            assert(init[i] == ms[i]);
            assert(tree_contains(ms[i], id));
        }
        if tree_contains(ms.last(), id) {
            assert(tree_contains(ms[ms.len() - 1], id));
        }
        if exists|i: int| 0 <= i < ms.len() && #[trigger] tree_contains(ms[i], id) {
            let i = choose|i: int| 0 <= i < ms.len() && #[trigger] tree_contains(ms[i], id);
            if i < ms.len() - 1 {
                assert(init[i] == ms[i]);
                assert(tree_contains(init[i], id));
            }
        }
    }
}

/// `i` is the first position in `ms` of a model with id `id`.
pub open spec fn first_with_id<G, L, T>(ms: Seq<Model<G, L, T>>, id: u32, i: int) -> bool {
    &&& 0 <= i < ms.len()
    &&& ms[i].id == id
    &&& forall|j: int| 0 <= j < i ==> ms[j].id != id
}

/// `k` is the first position in `ms` of a model whose descendants include
/// one with id `id`.
pub open spec fn first_holding<G, L, T>(ms: Seq<Model<G, L, T>>, id: u32, k: int) -> bool {
    &&& 0 <= k < ms.len()
    &&& forest_contains(ms[k].children@, id)
    &&& forall|j: int| 0 <= j < k ==> !forest_contains(#[trigger] ms[j].children@, id)
}

/// `a` and `b` agree in everything but their children.
pub open spec fn same_but_children<G, L, T>(a: Model<G, L, T>, b: Model<G, L, T>) -> bool {
    &&& a.id == b.id
    &&& a.meshes == b.meshes
    &&& a.name == b.name
    &&& a.transform == b.transform
    &&& a.light == b.light
}

/// `new` is `old` with the model `r` taken out: the first model with id `id`
/// among the roots if there is one; otherwise it is taken out, by the same
/// rule, of the children of the first root whose descendants include it.
pub open spec fn removed_from<G, L, T>(
    old: Seq<Model<G, L, T>>,
    new: Seq<Model<G, L, T>>,
    id: u32,
    r: Model<G, L, T>,
) -> bool
    decreases old,
{
    if exists|i: int| first_with_id(old, id, i) {
        let i = choose|i: int| first_with_id(old, id, i);
        new == old.remove(i) && r == old[i]
    } else if exists|k: int| first_holding(old, id, k) {
        let k = choose|k: int| first_holding(old, id, k);
        &&& new.len() == old.len()
        &&& forall|j: int| 0 <= j < old.len() && j != k ==> new[j] == old[j]
        &&& same_but_children(new[k], old[k])
        &&& removed_from(old[k].children@, new[k].children@, id, r)
    } else {
        false
    }
}

/// Whether a model with id `id` occurs anywhere in `models`.
pub fn forest_has<G, L, T>(models: &Vec<Model<G, L, T>>, id: u32) -> (r: bool)
    ensures
        r == forest_contains(models@, id),
    decreases models@,
{
    proof {
        lemma_forest_contains(models@, id);
    }
    let mut i: usize = 0;
    while i < models.len()
        invariant
            i <= models.len(),
            forall|j: int| 0 <= j < i ==> !#[trigger] tree_contains(models@[j], id),
        decreases models.len() - i,
    {
        if models[i].id == id {
            proof {
                lemma_forest_contains(models@, id);
                assert(tree_contains(models@[i as int], id));
            }
            return true;
        }
        if forest_has(&models[i].children, id) {
            proof {
                lemma_forest_contains(models@, id);
                assert(tree_contains(models@[i as int], id));
            }
            return true;
        }
        i += 1;
    }
    false
}

/// Takes the model with id `id` out of the forest `models` (see
/// `removed_from` for which one); `None`, and nothing changed, when there
/// is none.
pub fn remove_model_deep<G, L, T>(models: &mut Vec<Model<G, L, T>>, model_id: u32) -> (r: Option<Model<G, L, T>>)
    ensures
        r is Some <==> forest_contains(old(models)@, model_id),
        r is None ==> final(models)@ == old(models)@,
        r matches Some(m) ==> m.id == model_id && removed_from(old(models)@, final(models)@, model_id, m),
    decreases old(models)@,
{
    proof {
        lemma_forest_contains(models@, model_id);
    }
    let mut i: usize = 0;
    while i < models.len() && models[i].id != model_id
        invariant
            i <= models.len(),
            forall|j: int| 0 <= j < i ==> models@[j].id != model_id,
        decreases models.len() - i,
    {
        i += 1;
    }
    if i < models.len() {
        assert(first_with_id(models@, model_id, i as int));
        assert(tree_contains(models@[i as int], model_id));
        return Some(models.remove(i));
    }
    assert(!exists|i: int| first_with_id(models@, model_id, i));
    let mut k: usize = 0;
    while k < models.len()
        invariant
            k <= models.len(),
            models@ == old(models)@,
            forall|j: int| 0 <= j < models.len() ==> models@[j].id != model_id,
            forall|j: int| 0 <= j < k ==> !forest_contains(#[trigger] models@[j].children@, model_id),
        decreases models.len() - k,
    {
        if forest_has(&models[k].children, model_id) {
            assert(first_holding(models@, model_id, k as int));
            let ghost old_models = models@;
            let r = remove_model_deep(&mut models[k].children, model_id);
            proof {
                let kk = choose|kk: int| first_holding(old_models, model_id, kk);
                assert(kk == k);
                assert(tree_contains(old_models[k as int], model_id));
                lemma_forest_contains(old_models, model_id);
            }
            return r;
        }
        k += 1;
    }
    proof {
        assert forall|j: int| 0 <= j < models.len() implies !#[trigger] tree_contains(models@[j], model_id) by {
            assert(!forest_contains(models@[j].children@, model_id));
        }
    }
    None
}


/// The models of a forest in the order a deep walk visits them: the roots
/// first, then the deep walk of each root's children in turn.
pub open spec fn deep_order<G, L, T>(ms: Seq<Model<G, L, T>>) -> Seq<Model<G, L, T>>
    decreases ms, 1int,
{
    ms + deep_children(ms)
}

/// The deep walks of the children of each model of `ms`, one after another.
pub open spec fn deep_children<G, L, T>(ms: Seq<Model<G, L, T>>) -> Seq<Model<G, L, T>>
    decreases ms, 0int,
{
    if ms.len() == 0 {
        Seq::empty()
    } else {
        deep_children(ms.drop_last()) + deep_order(ms.last().children@)
    }
}

/// The values behind a sequence of references.
pub open spec fn derefs<M>(s: Seq<&M>) -> Seq<M> {
    s.map_values(|m: &M| *m)
}

/// Walks a hierarchy deeply.
pub trait DeepIter<T> {
    fn iter_deep(&self) -> Vec<&T>;
}

impl<G, L, T> DeepIter<Model<G, L, T>> for Vec<Model<G, L, T>> {
    /// The models of the forest in `deep_order`.
    fn iter_deep(&self) -> (r: Vec<&Model<G, L, T>>)
        ensures
            derefs(r@) == deep_order(self@),
    {
        deep_models(self)
    }
}

fn deep_models<G, L, T>(ms: &Vec<Model<G, L, T>>) -> (r: Vec<&Model<G, L, T>>)
    ensures
        derefs(r@) == deep_order(ms@),
    decreases ms@,
{
    let mut r: Vec<&Model<G, L, T>> = Vec::new();
    let mut i: usize = 0;
    while i < ms.len()
        invariant
            i <= ms.len(),
            derefs(r@) == ms@.take(i as int),
        decreases ms.len() - i,
    {
        let ghost before = r@;
        let m = &ms[i];
        r.push(m);
        proof {
            assert(r@ == before.push(m));
            assert(derefs(r@) =~= derefs(before).push(ms@[i as int]));
            assert(ms@.take(i + 1) =~= ms@.take(i as int).push(ms@[i as int]));
        }
        i += 1;
    }
    assert(ms@.take(ms.len() as int) =~= ms@);
    let mut k: usize = 0;
    while k < ms.len()
        invariant
            k <= ms.len(),
            derefs(r@) == ms@ + deep_children(ms@.take(k as int)),
        decreases ms.len() - k,
    {
        let mut sub = deep_models(&ms[k].children);
        let ghost before = r@;
        let ghost sub_view = sub@;
        r.append(&mut sub);
        proof {
            assert(r@ == before + sub_view);
            assert(derefs(before + sub_view) =~= derefs(before) + derefs(sub_view));
            assert(ms@.take(k + 1).drop_last() =~= ms@.take(k as int));
            assert(ms@.take(k + 1).last() == ms@[k as int]);
        }
        k += 1;
    }
    assert(ms@.take(ms.len() as int) =~= ms@);
    r
}

} // verus!
