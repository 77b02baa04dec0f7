pub mod light;
pub mod mesh;
pub mod model;

use crate::buffers::{
    can_push_each, lemma_can_push_each_add, lemma_can_push_each_prefix, lemma_pushes,
    lemma_pushes_add, pushes, DynamicBufferArray, DynamicBufferMap, PushPlan, PREALLOC_COUNT,
};
use crate::random_id;
use crate::scene::light::PointLight;
use crate::scene::mesh::Mesh;
use crate::scene::model::{first_deep, first_with_id, removed_from, forest_contains, remove_model_deep, derefs, deep_order, DeepIter, Model};
use vstd::prelude::*;

verus! {

/// A GPU upload that a scene operation asks the renderer to carry out, in
/// order: append or rewrite the info of a mesh, or of a model's light.
#[derive(Debug, Clone, Copy, PartialEq, Eq, Structural)]
pub enum BufferWrite {
    PushMesh { mesh_id: u32, plan: PushPlan },
    PushLight { model_id: u32, plan: PushPlan },
    UpdateMesh { mesh_id: u32, offset: u64 },
    UpdateLight { model_id: u32, offset: u64 },
}

/// The meshes of the root models, root after root.
pub open spec fn top_meshes<G, L, T>(ms: Seq<Model<G, L, T>>) -> Seq<Mesh<G>>
    decreases ms.len(),
{
    if ms.len() == 0 {
        Seq::empty()
    } else {
        top_meshes(ms.drop_last()) + ms.last().meshes@
    }
}

/// How many of the root models carry a light.
pub open spec fn light_count<G, L, T>(ms: Seq<Model<G, L, T>>) -> nat
    decreases ms.len(),
{
    if ms.len() == 0 {
        0
    } else {
        light_count(ms.drop_last()) + if ms.last().light is Some { 1nat } else { 0nat }
    }
}

/// Uploads that append the infos of `meshes`, one by one, to the array `a`.
pub open spec fn mesh_push_ops<G>(a: DynamicBufferArray, meshes: Seq<Mesh<G>>) -> Seq<BufferWrite>
    decreases meshes.len(),
{
    if meshes.len() == 0 {
        Seq::empty()
    } else {
        mesh_push_ops(a, meshes.drop_last()).push(
            BufferWrite::PushMesh {
                mesh_id: meshes.last().id,
                plan: pushes(a, (meshes.len() - 1) as nat).push_plan(1),
            },
        )
    }
}

/// Uploads that append a model: its meshes' infos, then its light if it has one.
pub open spec fn model_push_ops<G, L, T>(
    mb: DynamicBufferArray,
    lb: DynamicBufferArray,
    m: Model<G, L, T>,
) -> Seq<BufferWrite> {
    mesh_push_ops(mb, m.meshes@) + if m.light is Some {
        seq![BufferWrite::PushLight { model_id: m.id, plan: lb.push_plan(1) }]
    } else {
        Seq::empty()
    }
}

/// Uploads that append the root models of `ms`, one after another.
pub open spec fn forest_push_ops<G, L, T>(
    mb: DynamicBufferArray,
    lb: DynamicBufferArray,
    ms: Seq<Model<G, L, T>>,
) -> Seq<BufferWrite>
    decreases ms.len(),
{
    if ms.len() == 0 {
        Seq::empty()
    } else {
        let init = ms.drop_last();
        forest_push_ops(mb, lb, init) + model_push_ops(
            pushes(mb, top_meshes(init).len()),
            pushes(lb, light_count(init)),
            ms.last(),
        )
    }
}

/// The key map after the meshes' ids were pushed one by one, the first at
/// index `start`; a later push of an id overrides an earlier one.
pub open spec fn keys_pushed<G>(map: Map<u32, u64>, meshes: Seq<Mesh<G>>, start: nat) -> Map<u32, u64>
    decreases meshes.len(),
{
    if meshes.len() == 0 {
        map
    } else {
        keys_pushed(map, meshes.drop_last(), start).insert(
            meshes.last().id,
            (start + meshes.len() - 1) as u64,
        )
    }
}

/// Rewrites of the infos of the dirty ones among `meshes`, in order.
pub open spec fn mesh_update_ops<G>(meshes: Seq<Mesh<G>>, map: Map<u32, u64>, elem_size: nat) -> Seq<BufferWrite>
    decreases meshes.len(),
{
    if meshes.len() == 0 {
        Seq::empty()
    } else {
        let m = meshes.last();
        mesh_update_ops(meshes.drop_last(), map, elem_size) + if m.dirty {
            seq![BufferWrite::UpdateMesh { mesh_id: m.id, offset: (map[m.id] * elem_size) as u64 }]
        } else {
            Seq::empty()
        }
    }
}

/// Rewrites of the dirty lights of the root models `ms`, in order.
pub open spec fn light_update_ops<G, L, T>(ms: Seq<Model<G, L, T>>, elem_size: nat) -> Seq<BufferWrite>
    decreases ms.len(),
{
    if ms.len() == 0 {
        Seq::empty()
    } else {
        let m = ms.last();
        light_update_ops(ms.drop_last(), elem_size) + match m.light {
            Some(l) => if l.dirty {
                seq![BufferWrite::UpdateLight { model_id: m.id, offset: (l.index * elem_size) as u64 }]
            } else {
                Seq::empty()
            },
            None => Seq::empty(),
        }
    }
}

/// Every mesh of `meshes` has an element index below `count` in `map`.
pub open spec fn meshes_mapped<G>(meshes: Seq<Mesh<G>>, map: Map<u32, u64>, count: nat) -> bool {
    forall|j: int|
        0 <= j < meshes.len() ==> map.contains_key(#[trigger] meshes[j].id) && map[meshes[j].id] < count
}

/// Every dirty light of the root models `ms` has a slot below `count`,
/// whose byte offset fits in a `u64`.
pub open spec fn lights_in_range<G, L, T>(ms: Seq<Model<G, L, T>>, count: nat, elem_size: nat) -> bool {
    forall|i: int|
        0 <= i < ms.len() ==> match #[trigger] ms[i].light {
            Some(l) => l.dirty ==> l.index < count && l.index * elem_size <= u64::MAX,
            None => true,
        }
}

/// The light, up to date.
pub open spec fn cleaned_light<L>(l: Option<PointLight<L>>) -> Option<PointLight<L>> {
    match l {
        Some(p) => Some(PointLight { dirty: false, ..p }),
        None => None,
    }
}

/// `new` is `old` with the uploads of its meshes done.
pub open spec fn meshes_refreshed<G, L, T>(old: Model<G, L, T>, new: Model<G, L, T>) -> bool {
    &&& new.id == old.id
    &&& new.meshes@ == old.meshes@.map_values(|m: Mesh<G>| m.cleaned())
    &&& new.children == old.children
    &&& new.name == old.name
    &&& new.transform == old.transform
    &&& new.light == old.light
}

/// `new` is `old` with the upload of its light done.
pub open spec fn light_refreshed<G, L, T>(old: Model<G, L, T>, new: Model<G, L, T>) -> bool {
    &&& new.id == old.id
    &&& new.meshes == old.meshes
    &&& new.children == old.children
    &&& new.name == old.name
    &&& new.transform == old.transform
    &&& new.light == cleaned_light(old.light)
}

/// `new` is `old` with all its uploads done, and with children `children`.
pub open spec fn refreshed<G, L, T>(
    old: Model<G, L, T>,
    new: Model<G, L, T>,
    children: Seq<Model<G, L, T>>,
) -> bool {
    &&& new.id == old.id
    &&& new.meshes@ == old.meshes@.map_values(|m: Mesh<G>| m.cleaned())
    &&& new.children@ == children
    &&& new.name == old.name
    &&& new.transform == old.transform
    &&& new.light == cleaned_light(old.light)
}

/// The two forests agree, root by root, in ids and lights.
pub open spec fn same_root_lights<G, L, T>(a: Seq<Model<G, L, T>>, b: Seq<Model<G, L, T>>) -> bool {
    &&& a.len() == b.len()
    &&& forall|i: int| 0 <= i < a.len() ==> {
        &&& (#[trigger] a[i]).id == b[i].id
        &&& a[i].light == b[i].light
    }
}

/// The two forests agree, root by root, in their meshes.
pub open spec fn same_root_meshes<G, L, T>(a: Seq<Model<G, L, T>>, b: Seq<Model<G, L, T>>) -> bool {
    &&& a.len() == b.len()
    &&& forall|i: int| 0 <= i < a.len() ==> (#[trigger] a[i]).meshes == b[i].meshes
}

/// The two forests agree, root by root, in everything the buffers look at:
/// ids, meshes and lights.
pub open spec fn same_roots<G, L, T>(a: Seq<Model<G, L, T>>, b: Seq<Model<G, L, T>>) -> bool {
    &&& same_root_lights(a, b)
    &&& same_root_meshes(a, b)
}

pub proof fn lemma_same_root_lights<G, L, T>(a: Seq<Model<G, L, T>>, b: Seq<Model<G, L, T>>, es: nat)
    requires
        same_root_lights(a, b),
    ensures
        light_count(a) == light_count(b),
        light_update_ops(a, es) == light_update_ops(b, es),
        forall|c: nat, e: nat| lights_in_range(a, c, e) <==> lights_in_range(b, c, e),
    decreases a.len(),
{
    if a.len() > 0 {
        assert(same_root_lights(a.drop_last(), b.drop_last()));
        lemma_same_root_lights(a.drop_last(), b.drop_last(), es);
        assert(a.last().light == b.last().light);
    }
    assert forall|c: nat, e: nat| lights_in_range(a, c, e) implies lights_in_range(b, c, e) by {
        assert forall|i: int| 0 <= i < b.len() implies match #[trigger] b[i].light {
            Some(l) => l.dirty ==> l.index < c && l.index * e <= u64::MAX,
            None => true,
        } by {
            assert(a[i].light == b[i].light);
        }
    }
    assert forall|c: nat, e: nat| lights_in_range(b, c, e) implies lights_in_range(a, c, e) by {
        assert forall|i: int| 0 <= i < a.len() implies match #[trigger] a[i].light {
            Some(l) => l.dirty ==> l.index < c && l.index * e <= u64::MAX,
            None => true,
        } by {
            assert(a[i].light == b[i].light);
        }
    }
}

pub proof fn lemma_same_root_meshes<G, L, T>(a: Seq<Model<G, L, T>>, b: Seq<Model<G, L, T>>)
    requires
        same_root_meshes(a, b),
    ensures
        top_meshes(a) == top_meshes(b),
    decreases a.len(),
{
    if a.len() > 0 {
        assert(same_root_meshes(a.drop_last(), b.drop_last()));
        lemma_same_root_meshes(a.drop_last(), b.drop_last());
        assert(a.last().meshes == b.last().meshes);
    }
}

/// Root meshes of two forests one after the other.
pub proof fn lemma_top_meshes_concat<G, L, T>(a: Seq<Model<G, L, T>>, b: Seq<Model<G, L, T>>)
    ensures
        top_meshes(a + b) == top_meshes(a) + top_meshes(b),
        light_count(a + b) == light_count(a) + light_count(b),
    decreases b.len(),
{
    if b.len() == 0 {
        assert(a + b =~= a);
        assert(top_meshes(a) + top_meshes(b) =~= top_meshes(a));
    } else {
        lemma_top_meshes_concat(a, b.drop_last());
        assert((a + b).drop_last() =~= a + b.drop_last());
        assert((a + b).last() == b.last());
        assert(top_meshes(a) + (top_meshes(b.drop_last()) + b.last().meshes@) =~= (top_meshes(a) + top_meshes(
            b.drop_last(),
        )) + b.last().meshes@);
    }
}

/// Pushing the keys of two runs of meshes one after the other.
pub proof fn lemma_keys_pushed_concat<G>(map: Map<u32, u64>, a: Seq<Mesh<G>>, b: Seq<Mesh<G>>, start: nat)
    ensures
        keys_pushed(keys_pushed(map, a, start), b, start + a.len()) == keys_pushed(map, a + b, start),
    decreases b.len(),
{
    if b.len() == 0 {
        assert(a + b =~= a);
    } else {
        lemma_keys_pushed_concat(map, a, b.drop_last(), start);
        assert((a + b).drop_last() =~= a + b.drop_last());
        assert((a + b).last() == b.last());
    }
}

/// Where a root mesh comes from: the root and the position among its meshes.
pub proof fn lemma_top_mesh_at<G, L, T>(ms: Seq<Model<G, L, T>>, j: int) -> (r: (int, int))
    requires
        0 <= j < top_meshes(ms).len(),
    ensures
        0 <= r.0 < ms.len(),
        0 <= r.1 < ms[r.0].meshes@.len(),
        top_meshes(ms)[j] == ms[r.0].meshes@[r.1],
    decreases ms.len(),
{
    let init = ms.drop_last();
    if j < top_meshes(init).len() {
        let r = lemma_top_mesh_at(init, j);
        assert(init[r.0] == ms[r.0]);
        r
    } else {
        (ms.len() - 1, j - top_meshes(init).len())
    }
}

/// Dropping or keeping roots keeps the remaining root meshes mapped.
pub proof fn lemma_meshes_mapped_sub<G, L, T>(
    sub: Seq<Model<G, L, T>>,
    ms: Seq<Model<G, L, T>>,
    map: Map<u32, u64>,
    count: nat,
)
    requires
        meshes_mapped(top_meshes(ms), map, count),
        forall|i: int| 0 <= i < sub.len() ==> ms.contains(#[trigger] sub[i]),
    ensures
        meshes_mapped(top_meshes(sub), map, count),
{
    lemma_top_meshes_contains(ms);
    let tm = top_meshes(sub);
    assert forall|j: int| 0 <= j < tm.len() implies map.contains_key(#[trigger] tm[j].id) && map[tm[j].id]
        < count by {
        let (i, k) = lemma_top_mesh_at(sub, j);
        assert(ms.contains(sub[i]));
        let c = choose|c: int| 0 <= c < ms.len() && ms[c] == sub[i];
        assert(top_meshes(ms).contains(ms[c].meshes@[k]));
        let q = choose|q: int| 0 <= q < top_meshes(ms).len() && top_meshes(ms)[q] == ms[c].meshes@[k];
        assert(top_meshes(ms)[q].id == tm[j].id);
    }
}

/// Root meshes stay mapped when more keys are pushed.
pub proof fn lemma_meshes_mapped_after_push<G>(
    old: Seq<Mesh<G>>,
    map: Map<u32, u64>,
    count: nat,
    pushed: Seq<Mesh<G>>,
)
    requires
        meshes_mapped(old, map, count),
        count + pushed.len() <= u64::MAX + 1,
    ensures
        meshes_mapped(old + pushed, keys_pushed(map, pushed, count), count + pushed.len()),
        meshes_mapped(old, keys_pushed(map, pushed, count), count + pushed.len()),
        meshes_mapped(pushed, keys_pushed(map, pushed, count), count + pushed.len()),
{
    lemma_keys_pushed(map, pushed, count);
    let all = old + pushed;
    let m2 = keys_pushed(map, pushed, count);
    assert forall|j: int| 0 <= j < all.len() implies m2.contains_key(#[trigger] all[j].id) && m2[all[j].id]
        < count + pushed.len() by {
        if j < old.len() {
            assert(all[j] == old[j]);
            assert(map.contains_key(old[j].id));
        } else {
            assert(all[j] == pushed[j - old.len()]);
        }
    }
    assert forall|j: int| 0 <= j < old.len() implies m2.contains_key(#[trigger] old[j].id) && m2[old[j].id]
        < count + pushed.len() by {
        assert(all[j] == old[j]);
    }
}

/// The roots as the buffers see them once `model` is attached under the
/// root `parent_id`, or as a new root when there is no parent: attaching
/// under a root changes none of the roots' meshes or lights.
pub open spec fn attach_roots<G, L, T>(
    ms: Seq<Model<G, L, T>>,
    model: Model<G, L, T>,
    parent_id: Option<u32>,
) -> Seq<Model<G, L, T>> {
    if parent_id is Some { ms } else { ms.push(model) }
}

/// The roots after taking out the model with id `id`: only a root with that
/// id goes; taking out a deeper model changes none of the roots' meshes or
/// lights.
pub open spec fn roots_after_removal<G, L, T>(ms: Seq<Model<G, L, T>>, id: u32) -> Seq<Model<G, L, T>> {
    if exists|i: int| first_with_id(ms, id, i) {
        ms.remove(choose|i: int| first_with_id(ms, id, i))
    } else {
        ms
    }
}

/// Taking a model out keeps the lights of the roots in range.
pub proof fn lemma_removal_keeps_lights_in_range<G, L, T>(ms: Seq<Model<G, L, T>>, id: u32, count: nat, elem_size: nat)
    requires
        lights_in_range(ms, count, elem_size),
    ensures
        lights_in_range(roots_after_removal(ms, id), count, elem_size),
{
    if exists|i: int| first_with_id(ms, id, i) {
        let i = choose|i: int| first_with_id(ms, id, i);
        let r = ms.remove(i);
        assert forall|k: int| 0 <= k < r.len() implies match #[trigger] r[k].light {
            Some(l) => l.dirty ==> l.index < count && l.index * elem_size <= u64::MAX,
            None => true,
        } by {
            if k < i {
                assert(r[k] == ms[k]);
            } else {
                assert(r[k] == ms[k + 1]);
            }
        }
    }
}

/// The roots left by a removal are those of `roots_after_removal`.
pub proof fn lemma_removed_roots<G, L, T>(
    old: Seq<Model<G, L, T>>,
    new: Seq<Model<G, L, T>>,
    id: u32,
    r: Model<G, L, T>,
)
    requires
        removed_from(old, new, id, r),
    ensures
        same_roots(new, roots_after_removal(old, id)),
        forall|i: int| 0 <= i < new.len() ==> old.contains(#[trigger] new[i]) || !exists|j: int| first_with_id(old, id, j),
{
    if exists|i: int| first_with_id(old, id, i) {
        let i = choose|i: int| first_with_id(old, id, i);
        assert(new == old.remove(i));
        assert forall|k: int| 0 <= k < new.len() implies old.contains(#[trigger] new[k]) by {
            if k < i {
                assert(new[k] == old[k]);
            } else {
                assert(new[k] == old[k + 1]);
            }
        }
    } else {
        let k = choose|k: int| crate::scene::model::first_holding(old, id, k);
        assert(same_roots(new, old));
    }
}

/// Facts about pushing mesh keys: every pushed id ends up mapped to an index
/// in `[start, start + len)`, and every earlier key stays mapped, either to
/// its old index or to such a new one.
pub proof fn lemma_keys_pushed<G>(map: Map<u32, u64>, meshes: Seq<Mesh<G>>, start: nat)
    requires
        start + meshes.len() <= u64::MAX + 1,
    ensures
        forall|j: int|
            0 <= j < meshes.len() ==> {
                &&& keys_pushed(map, meshes, start).contains_key(#[trigger] meshes[j].id)
                &&& start <= keys_pushed(map, meshes, start)[meshes[j].id] < start + meshes.len()
            },
        forall|k: u32|
            #[trigger] map.contains_key(k) ==> {
                &&& keys_pushed(map, meshes, start).contains_key(k)
                &&& (keys_pushed(map, meshes, start)[k] == map[k] || start <= keys_pushed(map, meshes, start)[k]
                    < start + meshes.len())
            },
    decreases meshes.len(),
{
    if meshes.len() > 0 {
        let init = meshes.drop_last();
        lemma_keys_pushed(map, init, start);
        assert forall|j: int| 0 <= j < meshes.len() implies {
            &&& keys_pushed(map, meshes, start).contains_key(#[trigger] meshes[j].id)
            &&& start <= keys_pushed(map, meshes, start)[meshes[j].id] < start + meshes.len()
        } by {
            if j < meshes.len() - 1 {
                assert(init[j] == meshes[j]);
            }
        }
    }
}

/// A forest's root meshes, with those of one more root appended.
pub proof fn lemma_top_meshes_push<G, L, T>(ms: Seq<Model<G, L, T>>, m: Model<G, L, T>)
    ensures
        top_meshes(ms.push(m)) == top_meshes(ms) + m.meshes@,
        light_count(ms.push(m)) == light_count(ms) + if m.light is Some { 1nat } else { 0nat },
{
    assert(ms.push(m).drop_last() =~= ms);
}

/// Every mesh of a root model is among the root meshes.
pub proof fn lemma_top_meshes_contains<G, L, T>(ms: Seq<Model<G, L, T>>)
    ensures
        forall|i: int, j: int|
            0 <= i < ms.len() && 0 <= j < ms[i].meshes@.len() ==> top_meshes(ms).contains(
                #[trigger] ms[i].meshes@[j],
            ),
    decreases ms.len(),
{
    if ms.len() > 0 {
        let init = ms.drop_last();
        lemma_top_meshes_contains(init);
        assert forall|i: int, j: int|
            0 <= i < ms.len() && 0 <= j < ms[i].meshes@.len() implies top_meshes(ms).contains(
                #[trigger] ms[i].meshes@[j],
            ) by {
            let tm = top_meshes(ms);
            if i < ms.len() - 1 {
                assert(init[i] == ms[i]);
                let k = choose|k: int| 0 <= k < top_meshes(init).len() && top_meshes(init)[k] == ms[i].meshes@[j];
                assert(tm[k] == ms[i].meshes@[j]);
            } else {
                assert(tm[top_meshes(init).len() + j] == ms[i].meshes@[j]);
            }
        }
    }
}

/// Root meshes of a forest whose meshes were all brought up to date.
pub proof fn lemma_top_meshes_refreshed<G, L, T>(old: Seq<Model<G, L, T>>, new: Seq<Model<G, L, T>>)
    requires
        old.len() == new.len(),
        forall|i: int|
            0 <= i < old.len() ==> (#[trigger] new[i]).meshes@ == old[i].meshes@.map_values(
                |m: Mesh<G>| m.cleaned(),
            ),
    ensures
        top_meshes(new) == top_meshes(old).map_values(|m: Mesh<G>| m.cleaned()),
    decreases old.len(),
{
    if old.len() > 0 {
        lemma_top_meshes_refreshed(old.drop_last(), new.drop_last());
        assert(new[new.len() - 1] == new.last());
        let f = |m: Mesh<G>| m.cleaned();
        assert((top_meshes(old.drop_last()) + old.last().meshes@).map_values(f) =~= top_meshes(
            old.drop_last(),
        ).map_values(f) + old.last().meshes@.map_values(f));
    }
}

/// Uploads settle: once the dirty root meshes were rewritten, rewriting
/// them again asks for nothing.
pub proof fn lemma_mesh_updates_settle<G, L, T>(
    old: Seq<Model<G, L, T>>,
    new: Seq<Model<G, L, T>>,
    map: Map<u32, u64>,
    elem_size: nat,
)
    requires
        old.len() == new.len(),
        forall|i: int| 0 <= i < old.len() ==> meshes_refreshed(old[i], #[trigger] new[i]),
    ensures
        mesh_update_ops(top_meshes(new), map, elem_size).len() == 0,
{
    lemma_top_meshes_refreshed(old, new);
    lemma_clean_meshes_ask_nothing(top_meshes(old).map_values(|m: Mesh<G>| m.cleaned()), map, elem_size);
}

/// Meshes that are all up to date ask for no rewrite.
pub proof fn lemma_clean_meshes_ask_nothing<G>(meshes: Seq<Mesh<G>>, map: Map<u32, u64>, elem_size: nat)
    requires
        forall|i: int| 0 <= i < meshes.len() ==> !(#[trigger] meshes[i]).dirty,
    ensures
        mesh_update_ops(meshes, map, elem_size).len() == 0,
    decreases meshes.len(),
{
    if meshes.len() > 0 {
        assert(!meshes[meshes.len() - 1].dirty);
        lemma_clean_meshes_ask_nothing(meshes.drop_last(), map, elem_size);
    }
}

/// Root models whose lights are all up to date ask for no light rewrite.
pub proof fn lemma_clean_lights_ask_nothing<G, L, T>(ms: Seq<Model<G, L, T>>, elem_size: nat)
    requires
        forall|i: int| 0 <= i < ms.len() ==> ((#[trigger] ms[i]).light matches Some(l) ==> !l.dirty),
    ensures
        light_update_ops(ms, elem_size).len() == 0,
    decreases ms.len(),
{
    if ms.len() > 0 {
        assert(ms[ms.len() - 1] == ms.last());
        lemma_clean_lights_ask_nothing(ms.drop_last(), elem_size);
    }
}

/// Uploads settle: once the dirty lights were rewritten, rewriting them
/// again asks for nothing.
pub proof fn lemma_light_updates_settle<G, L, T>(old: Seq<Model<G, L, T>>, new: Seq<Model<G, L, T>>, elem_size: nat)
    requires
        old.len() == new.len(),
        forall|i: int| 0 <= i < old.len() ==> light_refreshed(old[i], #[trigger] new[i]),
    ensures
        light_update_ops(new, elem_size).len() == 0,
    decreases old.len(),
{
    if old.len() > 0 {
        assert forall|i: int| 0 <= i < old.len() - 1 implies light_refreshed(
            old.drop_last()[i],
            #[trigger] new.drop_last()[i],
        ) by {
            assert(light_refreshed(old[i], new[i]));
        }
        lemma_light_updates_settle(old.drop_last(), new.drop_last(), elem_size);
        assert(light_refreshed(old[old.len() - 1], new[new.len() - 1]));
    }
}

/// The meshes of a prefix of the models come first among the meshes of
/// all of them.
pub proof fn lemma_top_meshes_prefix<G, L, T>(ms: Seq<Model<G, L, T>>, i: int)
    requires
        0 <= i <= ms.len(),
    ensures
        top_meshes(ms.take(i)).len() <= top_meshes(ms).len(),
        forall|j: int| 0 <= j < top_meshes(ms.take(i)).len() ==> #[trigger] top_meshes(ms)[j] == top_meshes(ms.take(i))[j],
    decreases ms.len(),
{
    if i < ms.len() {
        lemma_top_meshes_prefix(ms.drop_last(), i);
        assert(ms.drop_last().take(i) =~= ms.take(i));
        assert forall|j: int| 0 <= j < top_meshes(ms.take(i)).len() implies #[trigger] top_meshes(ms)[j] == top_meshes(
            ms.take(i),
        )[j] by {
            assert(top_meshes(ms) == top_meshes(ms.drop_last()) + ms.last().meshes@);
            assert(top_meshes(ms)[j] == top_meshes(ms.drop_last())[j]);
        }
    } else {
        assert(ms.take(i) =~= ms);
    }
}

/// A scene: its root models and the GPU-side arrays of its mesh infos
/// (keyed by mesh id) and of its lights.
#[derive(Debug)]
pub struct Scene<G, L, T> {
    pub id: u32,
    pub models: Vec<Model<G, L, T>>,
    pub name: Option<String>,
    pub mesh_buffer: DynamicBufferMap,
    pub light_buffer: DynamicBufferArray,
}

/// `new` is `old` after `join(other)`, which asked for the uploads `ops`:
/// `other`'s roots follow `old`'s, their mesh infos and lights are
/// appended, and then the dirty root meshes and lights are rewritten.
pub open spec fn joined<G, L, T>(old: Scene<G, L, T>, other: Scene<G, L, T>, new: Scene<G, L, T>, ops: Seq<BufferWrite>) -> bool {
    &&& new.id == old.id
    &&& new.name == old.name
    &&& new.mesh_buffer.array() == pushes(old.mesh_buffer.array(), top_meshes(other.models@).len())
    &&& new.mesh_buffer.index_map() == keys_pushed(
            old.mesh_buffer.index_map(),
            top_meshes(other.models@),
            old.mesh_buffer.array().count()
        )
    &&& new.light_buffer == pushes(old.light_buffer, light_count(other.models@))
    &&& new.models@.len() == old.models@.len() + other.models@.len()
    &&& forall|i: int|
            0 <= i < new.models@.len() ==> refreshed(
                (old.models@ + other.models@)[i],
                #[trigger] new.models@[i],
                (old.models@ + other.models@)[i].children@,
            )
    &&& ops == forest_push_ops(old.mesh_buffer.array(), old.light_buffer, other.models@)
            + mesh_update_ops(
            top_meshes(old.models@ + other.models@),
            new.mesh_buffer.index_map(),
            old.mesh_buffer.array().elem_size()
        ) + light_update_ops(old.models@ + other.models@, old.light_buffer.elem_size())
}

/// Whether `other` can be joined into `old` (what `join` requires).
pub open spec fn joinable<G, L, T>(old: Scene<G, L, T>, other: Scene<G, L, T>) -> bool {
    &&& old.wf()
    &&& can_push_each(old.mesh_buffer.array(), top_meshes(other.models@).len())
    &&& can_push_each(old.light_buffer, light_count(other.models@))
    &&& lights_in_range(
            old.models@ + other.models@,
            old.light_buffer.count() + light_count(other.models@),
            old.light_buffer.elem_size()
        )
}

/// `new` is `old` after `add_model(model, parent_id)`, which asked for the
/// uploads `ops`: `model` goes under the first root with id `parent_id`,
/// or becomes a new root; its mesh infos and light are appended, and then
/// the dirty root meshes and lights are rewritten.
pub open spec fn model_added<G, L, T>(
    old: Scene<G, L, T>,
    model: Model<G, L, T>,
    parent_id: Option<u32>,
    new: Scene<G, L, T>,
    ops: Seq<BufferWrite>,
) -> bool {
    &&& new.id == old.id
    &&& new.name == old.name
    &&& new.mesh_buffer.array() == pushes(old.mesh_buffer.array(), model.meshes@.len())
    &&& new.mesh_buffer.index_map() == keys_pushed(
            old.mesh_buffer.index_map(),
            model.meshes@,
            old.mesh_buffer.array().count()
        )
    &&& new.light_buffer == if model.light is Some {
            old.light_buffer.pushed(1)
        } else {
            old.light_buffer
        }
    &&& match parent_id {
            Some(p) => {
                let k = choose|k: int| first_with_id(old.models@, p, k);
                &&& new.models@.len() == old.models@.len()
                &&& refreshed(old.models@[k], new.models@[k], old.models@[k].children@.push(model))
                &&& forall|i: int|
                    0 <= i < old.models@.len() && i != k ==> refreshed(
                        old.models@[i],
                        #[trigger] new.models@[i],
                        old.models@[i].children@,
                    )
            },
            None => {
                &&& new.models@.len() == old.models@.len() + 1
                &&& refreshed(model, new.models@[old.models@.len() as int], model.children@)
                &&& forall|i: int|
                    0 <= i < old.models@.len() ==> refreshed(
                        old.models@[i],
                        #[trigger] new.models@[i],
                        old.models@[i].children@,
                    )
            },
        }
    &&& ops == model_push_ops(old.mesh_buffer.array(), old.light_buffer, model) + mesh_update_ops(
            top_meshes(attach_roots(old.models@, model, parent_id)),
            new.mesh_buffer.index_map(),
            old.mesh_buffer.array().elem_size()
        ) + light_update_ops(
            attach_roots(old.models@, model, parent_id),
            old.light_buffer.elem_size()
        )
}

/// Whether `model` can be added to `old` under `parent_id` (what
/// `add_model` requires).
pub open spec fn addable<G, L, T>(old: Scene<G, L, T>, model: Model<G, L, T>, parent_id: Option<u32>) -> bool {
    &&& old.wf()
    &&& parent_id matches Some(p) ==> exists|i: int| 0 <= i < old.models@.len() && old.models@[i].id == p
    &&& can_push_each(old.mesh_buffer.array(), model.meshes@.len())
    &&& model.light is Some ==> old.light_buffer.can_push(1)
    &&& lights_in_range(
            attach_roots(old.models@, model, parent_id),
            old.light_buffer.count() + if model.light is Some { 1nat } else { 0nat },
            old.light_buffer.elem_size()
        )
}

/// `new` is `old` after `remove_model(id)` took out `found` and asked for
/// the rewrites `ops`: the model with id `id` that `removed_from` picks is
/// taken out (if there is one), the dirty root meshes and lights of what
/// remains are rewritten, and the buffers keep the infos of the removed
/// meshes.
pub open spec fn removal<G, L, T>(
    old: Scene<G, L, T>,
    new: Scene<G, L, T>,
    id: u32,
    found: Option<Model<G, L, T>>,
    ops: Seq<BufferWrite>,
) -> bool {
    &&& new.id == old.id
    &&& new.name == old.name
    &&& new.mesh_buffer == old.mesh_buffer
    &&& new.light_buffer == old.light_buffer
    &&& found is Some <==> forest_contains(old.models@, id)
    &&& exists|mid: Seq<Model<G, L, T>>| {
        &&& match found {
            Some(m) => m.id == id && removed_from(old.models@, mid, id, m),
            None => mid == old.models@,
        }
        &&& new.models@.len() == mid.len()
        &&& forall|i: int| 0 <= i < mid.len() ==> refreshed(mid[i], #[trigger] new.models@[i], mid[i].children@)
        &&& ops == mesh_update_ops(top_meshes(mid), old.mesh_buffer.index_map(), old.mesh_buffer.array().elem_size())
            + light_update_ops(mid, old.light_buffer.elem_size())
    }
}

/// Whether the dirty lights of the roots `ms` all have slots below `count`
/// whose byte offsets, at `elem_size` bytes a slot, fit in a `u64`.
pub fn lights_fit_in<G, L, T>(ms: &Vec<Model<G, L, T>>, count: u64, elem_size: u64) -> (r: bool)
    ensures
        r == lights_in_range(ms@, count as nat, elem_size as nat),
{
    let n = ms.len();
    let mut i: usize = 0;
    while i < n
        invariant
            n == ms@.len(),
            i <= n,
            forall|j: int|
                0 <= j < i ==> match #[trigger] ms@[j].light {
                    Some(l) => l.dirty ==> l.index < count && l.index * elem_size <= u64::MAX,
                    None => true,
                },
        decreases n - i,
    {
        if !light_fits(&ms[i].light, count, elem_size) {
            return false;
        }
        i += 1;
    }
    true
}

/// Whether the light, if it is dirty, has a slot below `count` whose byte
/// offset fits in a `u64`.
fn light_fits<L>(light: &Option<PointLight<L>>, count: u64, elem_size: u64) -> (r: bool)
    ensures
        r == match *light {
            Some(l) => l.dirty ==> l.index < count && l.index * elem_size <= u64::MAX,
            None => true,
        },
{
    match light {
        Some(l) => {
            if !l.dirty {
                true
            } else if l.index as u64 >= count {
                false
            } else {
                (l.index as u64).checked_mul(elem_size).is_some()
            }
        },
        None => true,
    }
}

/// The meshes of the roots `models`, root after root.
pub fn root_meshes<G, L, T>(models: &Vec<Model<G, L, T>>) -> (r: Vec<&Mesh<G>>)
    ensures
        derefs(r@) == top_meshes(models@),
{
    let mut r: Vec<&Mesh<G>> = Vec::new();
    let n = models.len();
    let mut i: usize = 0;
    while i < n
        invariant
            n == models@.len(),
            i <= n,
            derefs(r@) == top_meshes(models@.take(i as int)),
        decreases n - i,
    {
        let m = models[i].meshes.len();
        let mut j: usize = 0;
        while j < m
            invariant
                n == models@.len(),
                i < n,
                m == models@[i as int].meshes@.len(),
                j <= m,
                derefs(r@) == top_meshes(models@.take(i as int)) + models@[i as int].meshes@.take(j as int),
            decreases m - j,
        {
            let ghost before = r@;
            let mesh = &models[i].meshes[j];
            r.push(mesh);
            proof {
                assert(r@ == before.push(mesh));
                assert(derefs(r@) =~= derefs(before).push(*mesh));
                assert(models@[i as int].meshes@.take(j + 1) =~= models@[i as int].meshes@.take(j as int).push(*mesh));
            }
            j += 1;
        }
        proof {
            let t = models@.take(i + 1);
            assert(t.drop_last() =~= models@.take(i as int));
            assert(t.last() == models@[i as int]);
            assert(models@[i as int].meshes@.take(m as int) =~= models@[i as int].meshes@);
        }
        i += 1;
    }
    proof {
        assert(models@.take(n as int) =~= models@);
    }
    r
}

/// How many of the roots `ms` carry a light.
pub fn root_light_count<G, L, T>(ms: &Vec<Model<G, L, T>>) -> (r: usize)
    ensures
        r == light_count(ms@),
{
    let n = ms.len();
    let mut c: usize = 0;
    let mut i: usize = 0;
    while i < n
        invariant
            n == ms@.len(),
            i <= n,
            c <= i,
            c == light_count(ms@.take(i as int)),
        decreases n - i,
    {
        proof {
            let t = ms@.take(i + 1);
            assert(t.drop_last() =~= ms@.take(i as int));
            assert(t.last() == ms@[i as int]);
        }
        if ms[i].light.is_some() {
            c += 1;
        }
        i += 1;
    }
    proof {
        assert(ms@.take(n as int) =~= ms@);
    }
    c
}

/// The lights of two forests side by side are in range when those of each
/// are.
pub proof fn lemma_lights_in_range_concat<G, L, T>(
    a: Seq<Model<G, L, T>>,
    b: Seq<Model<G, L, T>>,
    count: nat,
    elem_size: nat,
)
    ensures
        lights_in_range(a + b, count, elem_size) <==> lights_in_range(a, count, elem_size) && lights_in_range(
            b,
            count,
            elem_size,
        ),
{
    let ab = a + b;
    if lights_in_range(ab, count, elem_size) {
        assert forall|i: int| 0 <= i < a.len() implies match #[trigger] a[i].light {
            Some(l) => l.dirty ==> l.index < count && l.index * elem_size <= u64::MAX,
            None => true,
        } by {
            assert(ab[i] == a[i]);
        }
        assert forall|i: int| 0 <= i < b.len() implies match #[trigger] b[i].light {
            Some(l) => l.dirty ==> l.index < count && l.index * elem_size <= u64::MAX,
            None => true,
        } by {
            assert(ab[a.len() + i] == b[i]);
        }
    }
    if lights_in_range(a, count, elem_size) && lights_in_range(b, count, elem_size) {
        assert forall|i: int| 0 <= i < ab.len() implies match #[trigger] ab[i].light {
            Some(l) => l.dirty ==> l.index < count && l.index * elem_size <= u64::MAX,
            None => true,
        } by {
            if i < a.len() {
                assert(ab[i] == a[i]);
            } else {
                assert(ab[i] == b[i - a.len()]);
            }
        }
    }
}

impl<G, L, T> Scene<G, L, T> {
    /// Every mesh of a root model has its info in the mesh array.
    pub open spec fn wf(&self) -> bool {
        meshes_mapped(top_meshes(self.models@), self.mesh_buffer.index_map(), self.mesh_buffer.array().count())
    }

    /// Rewrites the infos of the dirty meshes of the root models, in order,
    /// and marks them up to date.
    pub fn update_meshes(&mut self) -> (ops: Vec<BufferWrite>)
        requires
            old(self).wf(),
        ensures
            final(self).id == old(self).id,
            final(self).name == old(self).name,
            final(self).mesh_buffer == old(self).mesh_buffer,
            final(self).light_buffer == old(self).light_buffer,
            final(self).models@.len() == old(self).models@.len(),
            forall|i: int|
                0 <= i < old(self).models@.len() ==> meshes_refreshed(
                    old(self).models@[i],
                    #[trigger] final(self).models@[i],
                ),
            ops@ == mesh_update_ops(
                top_meshes(old(self).models@),
                old(self).mesh_buffer.index_map(),
                old(self).mesh_buffer.array().elem_size(),
            ),
            final(self).wf(),
    {
        let ghost old_models = self.models@;
        let ghost map = self.mesh_buffer.index_map();
        let ghost es = self.mesh_buffer.array().elem_size();
        proof {
            lemma_top_meshes_contains(old_models);
        }
        let mut ops: Vec<BufferWrite> = Vec::new();
        let n = self.models.len();
        let mut i: usize = 0;
        while i < n
            invariant
                n == old_models.len(),
                i <= n,
                self.models@.len() == n,
                self.id == old(self).id,
                self.name == old(self).name,
                self.mesh_buffer == old(self).mesh_buffer,
                self.light_buffer == old(self).light_buffer,
                map == self.mesh_buffer.index_map(),
                es == self.mesh_buffer.array().elem_size(),
                meshes_mapped(top_meshes(old_models), map, self.mesh_buffer.array().count()),
                forall|i: int, j: int|
                    0 <= i < old_models.len() && 0 <= j < old_models[i].meshes@.len() ==> top_meshes(
                        old_models,
                    ).contains(#[trigger] old_models[i].meshes@[j]),
                forall|k: int| 0 <= k < i ==> meshes_refreshed(old_models[k], #[trigger] self.models@[k]),
                forall|k: int| i <= k < n ==> #[trigger] self.models@[k] == old_models[k],
                ops@ == mesh_update_ops(top_meshes(old_models.take(i as int)), map, es),
            decreases n - i,
        {
            let m = self.models[i].meshes.len();
            let mut j: usize = 0;
            while j < m
                invariant
                    n == old_models.len(),
                    i < n,
                    j <= m,
                    self.models@.len() == n,
                    m == old_models[i as int].meshes@.len(),
                    self.id == old(self).id,
                    self.name == old(self).name,
                    self.mesh_buffer == old(self).mesh_buffer,
                    self.light_buffer == old(self).light_buffer,
                    map == self.mesh_buffer.index_map(),
                    es == self.mesh_buffer.array().elem_size(),
                    meshes_mapped(top_meshes(old_models), map, self.mesh_buffer.array().count()),
                    forall|i: int, j: int|
                        0 <= i < old_models.len() && 0 <= j < old_models[i].meshes@.len() ==> top_meshes(
                            old_models,
                        ).contains(#[trigger] old_models[i].meshes@[j]),
                    forall|k: int| 0 <= k < i ==> meshes_refreshed(old_models[k], #[trigger] self.models@[k]),
                    forall|k: int| i < k < n ==> #[trigger] self.models@[k] == old_models[k],
                    self.models@[i as int].id == old_models[i as int].id,
                    self.models@[i as int].children == old_models[i as int].children,
                    self.models@[i as int].name == old_models[i as int].name,
                    self.models@[i as int].transform == old_models[i as int].transform,
                    self.models@[i as int].light == old_models[i as int].light,
                    self.models@[i as int].meshes@.len() == m,
                    forall|l: int|
                        0 <= l < j ==> #[trigger] self.models@[i as int].meshes@[l]
                            == old_models[i as int].meshes@[l].cleaned(),
                    forall|l: int|
                        j <= l < m ==> #[trigger] self.models@[i as int].meshes@[l]
                            == old_models[i as int].meshes@[l],
                    ops@ == mesh_update_ops(
                        top_meshes(old_models.take(i as int)) + old_models[i as int].meshes@.take(j as int),
                        map,
                        es,
                    ),
                decreases m - j,
            {
                let ghost prefix = top_meshes(old_models.take(i as int)) + old_models[i as int].meshes@.take(
                    j as int,
                );
                let ghost next = top_meshes(old_models.take(i as int)) + old_models[i as int].meshes@.take(
                    j + 1,
                );
                proof {
                    assert(next.drop_last() =~= prefix);
                    assert(next.last() == old_models[i as int].meshes@[j as int]);
                }
                if self.models[i].meshes[j].dirty {
                    let id = self.models[i].meshes[j].id;
                    proof {
                        let mesh = old_models[i as int].meshes@[j as int];
                        assert(top_meshes(old_models).contains(mesh));
                        let k = choose|k: int| 0 <= k < top_meshes(old_models).len() && top_meshes(old_models)[k] == mesh;
                        assert(top_meshes(old_models)[k].id == id);
                    }
                    let offset = self.mesh_buffer.update(&id);
                    ops.push(BufferWrite::UpdateMesh { mesh_id: id, offset });
                    self.models[i].meshes[j].dirty = false;
                }
                j += 1;
            }
            proof {
                let f = |m: Mesh<G>| m.cleaned();
                assert(self.models@[i as int].meshes@ =~= old_models[i as int].meshes@.map_values(f));
                assert(old_models[i as int].meshes@.take(m as int) =~= old_models[i as int].meshes@);
                assert(old_models.take(i + 1).drop_last() =~= old_models.take(i as int));
                assert(old_models.take(i + 1).last() == old_models[i as int]);
            }
            i += 1;
        }
        proof {
            assert(old_models.take(n as int) =~= old_models);
            lemma_top_meshes_refreshed(old_models, self.models@);
            let tm = top_meshes(self.models@);
            assert forall|j: int| 0 <= j < tm.len() implies map.contains_key(#[trigger] tm[j].id) && map[tm[j].id]
                < self.mesh_buffer.array().count() by {
                assert(tm[j].id == top_meshes(old_models)[j].id);
            }
        }
        ops
    }

    /// Rewrites the dirty lights of the root models, in order, and marks them
    /// up to date.
    pub fn update_lights(&mut self) -> (ops: Vec<BufferWrite>)
        requires
            lights_in_range(old(self).models@, old(self).light_buffer.count(), old(self).light_buffer.elem_size()),
        ensures
            final(self).id == old(self).id,
            final(self).name == old(self).name,
            final(self).mesh_buffer == old(self).mesh_buffer,
            final(self).light_buffer == old(self).light_buffer,
            final(self).models@.len() == old(self).models@.len(),
            forall|i: int|
                0 <= i < old(self).models@.len() ==> light_refreshed(
                    old(self).models@[i],
                    #[trigger] final(self).models@[i],
                ),
            ops@ == light_update_ops(old(self).models@, old(self).light_buffer.elem_size()),
    {
        let ghost old_models = self.models@;
        let ghost es = self.light_buffer.elem_size();
        let mut ops: Vec<BufferWrite> = Vec::new();
        let n = self.models.len();
        let mut i: usize = 0;
        while i < n
            invariant
                n == old_models.len(),
                i <= n,
                self.models@.len() == n,
                self.id == old(self).id,
                self.name == old(self).name,
                self.mesh_buffer == old(self).mesh_buffer,
                self.light_buffer == old(self).light_buffer,
                es == self.light_buffer.elem_size(),
                lights_in_range(old_models, self.light_buffer.count(), es),
                forall|k: int| 0 <= k < i ==> light_refreshed(old_models[k], #[trigger] self.models@[k]),
                forall|k: int| i <= k < n ==> #[trigger] self.models@[k] == old_models[k],
                ops@ == light_update_ops(old_models.take(i as int), es),
            decreases n - i,
        {
            proof {
                assert(old_models.take(i + 1).drop_last() =~= old_models.take(i as int));
                assert(old_models.take(i + 1).last() == old_models[i as int]);
                assert(self.models@[i as int] == old_models[i as int]);
            }
            let (dirty, index) = match &self.models[i].light {
                Some(l) => (l.dirty, l.index),
                None => (false, 0),
            };
            if dirty {
                let offset = self.light_buffer.update(index as u64);
                let model_id = self.models[i].id;
                ops.push(BufferWrite::UpdateLight { model_id, offset });
                match &mut self.models[i].light {
                    Some(l) => l.dirty = false,
                    None => {},
                }
            }
            i += 1;
        }
        proof {
            assert(old_models.take(n as int) =~= old_models);
        }
        ops
    }

    /// The model with id `model_id` taken out of the scene (see
    /// `removed_from` for which one); then the dirty root meshes and lights
    /// are rewritten. The buffers keep the infos of the removed meshes.
    pub fn remove_model(&mut self, model_id: u32) -> (r: (Option<Model<G, L, T>>, Vec<BufferWrite>))
        requires
            old(self).wf(),
            lights_in_range(
                roots_after_removal(old(self).models@, model_id),
                old(self).light_buffer.count(),
                old(self).light_buffer.elem_size(),
            ),
        ensures
            removal(*old(self), *final(self), model_id, r.0, r.1@),
            final(self).wf(),
    {
        let ghost old_models = self.models@;
        let ghost es = self.light_buffer.elem_size();
        let removed = remove_model_deep(&mut self.models, model_id);
        let ghost mid = self.models@;
        proof {
            crate::scene::model::lemma_forest_contains(old_models, model_id);
            if exists|i: int| first_with_id(old_models, model_id, i) {
                let i = choose|i: int| first_with_id(old_models, model_id, i);
                assert(crate::scene::model::tree_contains(old_models[i], model_id));
            }
            if removed is Some {
                let m = removed.unwrap();
                {
                    lemma_removed_roots(old_models, mid, model_id, m);
                    lemma_same_root_lights(mid, roots_after_removal(old_models, model_id), es);
                    if exists|i: int| first_with_id(old_models, model_id, i) {
                        lemma_meshes_mapped_sub(
                            mid,
                            old_models,
                            self.mesh_buffer.index_map(),
                            self.mesh_buffer.array().count(),
                        );
                    } else {
                        assert(same_root_meshes(mid, old_models));
                        lemma_same_root_meshes(mid, old_models);
                    }
                }
            }
        }
        let mut ops = self.update_meshes();
        let ghost after_meshes = self.models@;
        proof {
            assert(same_root_lights(after_meshes, mid));
            lemma_same_root_lights(after_meshes, mid, es);
        }
        let mut light_ops = self.update_lights();
        ops.append(&mut light_ops);
        proof {
            assert(same_root_meshes(self.models@, after_meshes));
            lemma_same_root_meshes(self.models@, after_meshes);
            assert forall|i: int| 0 <= i < mid.len() implies refreshed(mid[i], #[trigger] self.models@[i], mid[i].children@) by {
                assert(meshes_refreshed(mid[i], after_meshes[i]));
                assert(light_refreshed(after_meshes[i], self.models@[i]));
            }
        }
        (removed, ops)
    }

    /// Appends the infos of the meshes and lights of the roots `ms`, root
    /// after root.
    fn push_forest(&mut self, ms: &Vec<Model<G, L, T>>, ops: &mut Vec<BufferWrite>)
        requires
            can_push_each(old(self).mesh_buffer.array(), top_meshes(ms@).len()),
            can_push_each(old(self).light_buffer, light_count(ms@)),
        ensures
            final(self).id == old(self).id,
            final(self).models == old(self).models,
            final(self).name == old(self).name,
            final(self).mesh_buffer.array() == pushes(old(self).mesh_buffer.array(), top_meshes(ms@).len()),
            final(self).mesh_buffer.index_map() == keys_pushed(
                old(self).mesh_buffer.index_map(),
                top_meshes(ms@),
                old(self).mesh_buffer.array().count(),
            ),
            final(self).light_buffer == pushes(old(self).light_buffer, light_count(ms@)),
            final(ops)@ == old(ops)@ + forest_push_ops(old(self).mesh_buffer.array(), old(self).light_buffer, ms@),
    {
        let ghost mb0 = self.mesh_buffer.array();
        let ghost lb0 = self.light_buffer;
        let ghost map0 = self.mesh_buffer.index_map();
        let ghost ops0 = ops@;
        let n = ms.len();
        let mut i: usize = 0;
        while i < n
            invariant
                n == ms@.len(),
                i <= n,
                can_push_each(mb0, top_meshes(ms@).len()),
                can_push_each(lb0, light_count(ms@)),
                self.id == old(self).id,
                self.models == old(self).models,
                self.name == old(self).name,
                self.mesh_buffer.array() == pushes(mb0, top_meshes(ms@.take(i as int)).len()),
                self.mesh_buffer.index_map() == keys_pushed(map0, top_meshes(ms@.take(i as int)), mb0.count()),
                self.light_buffer == pushes(lb0, light_count(ms@.take(i as int))),
                ops@ == ops0 + forest_push_ops(mb0, lb0, ms@.take(i as int)),
            decreases n - i,
        {
            let ghost pre = ms@.take(i as int);
            let ghost cur = ms@.take(i + 1);
            let ghost x = top_meshes(pre).len();
            let ghost lc = light_count(pre);
            proof {
                assert(cur.drop_last() =~= pre);
                assert(cur.last() == ms@[i as int]);
                assert(ms@ =~= cur + ms@.skip(i + 1));
                lemma_top_meshes_concat(cur, ms@.skip(i + 1));
                lemma_can_push_each_prefix(mb0, x + ms@[i as int].meshes@.len(), top_meshes(ms@).len());
                lemma_can_push_each_add(mb0, x, ms@[i as int].meshes@.len());
                lemma_can_push_each_prefix(mb0, x, top_meshes(ms@).len());
                lemma_pushes(mb0, x);
                if ms@[i as int].light is Some {
                    lemma_can_push_each_prefix(lb0, lc + 1, light_count(ms@));
                }
            }
            self.push_model(&ms[i], ops);
            proof {
                lemma_pushes_add(mb0, x, ms@[i as int].meshes@.len());
                lemma_keys_pushed_concat(map0, top_meshes(pre), ms@[i as int].meshes@, mb0.count());
            }
            i += 1;
        }
        proof {
            assert(ms@.take(n as int) =~= ms@);
        }
    }

    /// A scene of the roots `models`: fresh mesh and light arrays (of
    /// elements of the given sizes) receive the infos of the roots' meshes
    /// and lights, root after root. The scene gets a random id.
    pub fn from(
        models: Vec<Model<G, L, T>>,
        name: Option<String>,
        mesh_info_size: u64,
        light_info_size: u64,
    ) -> (r: (Self, Vec<BufferWrite>))
        requires
            PREALLOC_COUNT * mesh_info_size <= u64::MAX,
            PREALLOC_COUNT * light_info_size <= u64::MAX,
            can_push_each(DynamicBufferArray::fresh(None, mesh_info_size as nat), top_meshes(models@).len()),
            can_push_each(DynamicBufferArray::fresh(None, light_info_size as nat), light_count(models@)),
        ensures
            r.0.id < 0x8000_0000,
            r.0.models == models,
            r.0.name == name,
            r.0.mesh_buffer.array().label() matches Some(l) && l@ == "Mesh Buffer"@,
            r.0.light_buffer.label() matches Some(l) && l@ == "Light Buffer"@,
            r.0.mesh_buffer.array() == pushes(
                DynamicBufferArray::fresh(r.0.mesh_buffer.array().label(), mesh_info_size as nat),
                top_meshes(models@).len(),
            ),
            r.0.mesh_buffer.index_map() == keys_pushed(Map::empty(), top_meshes(models@), 0),
            r.0.light_buffer == pushes(
                DynamicBufferArray::fresh(r.0.light_buffer.label(), light_info_size as nat),
                light_count(models@),
            ),
            r.1@ == forest_push_ops(
                DynamicBufferArray::fresh(r.0.mesh_buffer.array().label(), mesh_info_size as nat),
                DynamicBufferArray::fresh(r.0.light_buffer.label(), light_info_size as nat),
                models@,
            ),
            r.0.wf(),
    {
        broadcast use vstd::string::to_string_from_display_ensures_for_str;

        let mesh_label = "Mesh Buffer".to_string();
        let light_label = "Light Buffer".to_string();
        proof {
            DynamicBufferArray::lemma_fresh(None, Some(mesh_label), mesh_info_size as nat);
            DynamicBufferArray::fresh(None, mesh_info_size as nat).lemma_same_shape(
                DynamicBufferArray::fresh(Some(mesh_label), mesh_info_size as nat),
                top_meshes(models@).len(),
            );
            DynamicBufferArray::lemma_fresh(None, Some(light_label), light_info_size as nat);
            DynamicBufferArray::fresh(None, light_info_size as nat).lemma_same_shape(
                DynamicBufferArray::fresh(Some(light_label), light_info_size as nat),
                light_count(models@),
            );
        }
        let mesh_buffer = DynamicBufferMap::new(Some(mesh_label), mesh_info_size);
        let light_buffer = DynamicBufferArray::new(Some(light_label), light_info_size);
        let mut scene = Scene { id: random_id(), models: Vec::new(), name, mesh_buffer, light_buffer };
        let mut ops: Vec<BufferWrite> = Vec::new();
        scene.push_forest(&models, &mut ops);
        proof {
            let mb0 = DynamicBufferArray::fresh(Some(mesh_label), mesh_info_size as nat);
            lemma_pushes(mb0, top_meshes(models@).len());
            pushes(mb0, top_meshes(models@).len()).lemma_bounds();
            lemma_pushes(DynamicBufferArray::fresh(Some(light_label), light_info_size as nat), light_count(models@));
            lemma_meshes_mapped_after_push(Seq::<Mesh<G>>::empty(), Map::empty(), 0, top_meshes(models@));
        }
        scene.models = models;
        (scene, ops)
    }

    /// Moves the roots of `other` into this scene after its own, appending
    /// their mesh infos and lights; then the dirty root meshes and lights
    /// are rewritten.
    pub fn join(&mut self, other: Scene<G, L, T>) -> (ops: Vec<BufferWrite>)
        requires
            joinable(*old(self), other),
        ensures
            joined(*old(self), other, *final(self), ops@),
            final(self).wf(),
    {
        let ghost old_models = self.models@;
        let ghost joined = old_models + other.models@;
        let ghost c0 = self.mesh_buffer.array().count();
        let ghost map0 = self.mesh_buffer.index_map();
        let ghost es = self.light_buffer.elem_size();
        let mut ops: Vec<BufferWrite> = Vec::new();
        self.push_forest(&other.models, &mut ops);
        proof {
            old(self).mesh_buffer.array().lemma_bounds();
            lemma_pushes(old(self).mesh_buffer.array(), top_meshes(other.models@).len());
            pushes(old(self).mesh_buffer.array(), top_meshes(other.models@).len()).lemma_bounds();
            lemma_pushes(old(self).light_buffer, light_count(other.models@));
            lemma_meshes_mapped_after_push(top_meshes(old_models), map0, c0, top_meshes(other.models@));
            lemma_top_meshes_concat(old_models, other.models@);
        }
        let mut other_models = other.models;
        self.models.append(&mut other_models);
        assert(self.models@ == joined);
        let mut mesh_ops = self.update_meshes();
        ops.append(&mut mesh_ops);
        let ghost after_meshes = self.models@;
        proof {
            assert(same_root_lights(after_meshes, joined));
            lemma_same_root_lights(after_meshes, joined, es);
        }
        let mut light_ops = self.update_lights();
        ops.append(&mut light_ops);
        proof {
            assert(same_root_meshes(self.models@, after_meshes));
            lemma_same_root_meshes(self.models@, after_meshes);
            assert forall|i: int| 0 <= i < self.models@.len() implies refreshed(joined[i], #[trigger] self.models@[i], joined[i].children@) by {
                assert(meshes_refreshed(joined[i], after_meshes[i]));
                assert(light_refreshed(after_meshes[i], self.models@[i]));
            }
        }
        ops
    }

    /// The first mesh with id `mesh_id` among the meshes of all models of
    /// the scene, taken model by model in `deep_order`.
    #[verifier::loop_isolation(false)]
    pub fn find_mesh(&self, mesh_id: u32) -> (r: Option<&Mesh<G>>)
        ensures
            r is None <==> forall|i: int|
                0 <= i < top_meshes(deep_order(self.models@)).len() ==> (#[trigger] top_meshes(
                    deep_order(self.models@),
                )[i]).id != mesh_id,
            r matches Some(m) ==> exists|i: int|
                #![trigger top_meshes(deep_order(self.models@))[i]]
                {
                    &&& 0 <= i < top_meshes(deep_order(self.models@)).len()
                    &&& top_meshes(deep_order(self.models@))[i] == *m
                    &&& m.id == mesh_id
                    &&& forall|j: int| 0 <= j < i ==> top_meshes(deep_order(self.models@))[j].id != mesh_id
                },
    {
        let models = self.iter_models_deep();
        let ghost all = derefs(models@);
        let ghost ms = top_meshes(all);
        let n = models.len();
        let mut i: usize = 0;
        while i < n
            invariant
                n == models@.len(),
                i <= n,
                all == derefs(models@),
                all == deep_order(self.models@),
                ms == top_meshes(all),
                forall|j: int| 0 <= j < top_meshes(all.take(i as int)).len() ==> (#[trigger] top_meshes(all.take(i as int))[j]).id != mesh_id,
                top_meshes(all.take(i as int)).len() <= ms.len(),
                forall|j: int| 0 <= j < top_meshes(all.take(i as int)).len() ==> #[trigger] ms[j] == top_meshes(all.take(i as int))[j],
            decreases n - i,
        {
            let model = models[i];
            let ghost pre = top_meshes(all.take(i as int));
            proof {
                assert(all[i as int] == *model);
                let t = all.take(i + 1);
                assert(t.drop_last() =~= all.take(i as int));
                assert(t.last() == *model);
                assert(top_meshes(t) == pre + model.meshes@);
                lemma_top_meshes_prefix(all, i + 1);
            }
            let m = model.meshes.len();
            let mut j: usize = 0;
            while j < m
                invariant
                    m == model.meshes@.len(),
                    j <= m,
                    forall|k: int| 0 <= k < j ==> (#[trigger] model.meshes@[k]).id != mesh_id,
                decreases m - j,
            {
                if model.meshes[j].id == mesh_id {
                    let found = &model.meshes[j];
                    proof {
                        let t = all.take(i + 1);
                        let idx = pre.len() + j;
                        assert(top_meshes(t)[idx] == model.meshes@[j as int]);
                        assert(ms[idx] == top_meshes(t)[idx]);
                        assert forall|k: int| 0 <= k < idx implies ms[k].id != mesh_id by {
                            assert(ms[k] == top_meshes(t)[k]);
                            if k < pre.len() {
                                assert(top_meshes(t)[k] == pre[k]);
                            } else {
                                assert(top_meshes(t)[k] == model.meshes@[k - pre.len()]);
                            }
                        }
                        assert(ms == top_meshes(deep_order(self.models@)));
                    }
                    return Some(found);
                }
                j += 1;
            }
            proof {
                let t = all.take(i + 1);
                assert forall|k: int| 0 <= k < top_meshes(t).len() implies (#[trigger] top_meshes(t)[k]).id != mesh_id by {
                    if k < pre.len() {
                        assert(top_meshes(t)[k] == pre[k]);
                    } else {
                        assert(top_meshes(t)[k] == model.meshes@[k - pre.len()]);
                    }
                }
                assert forall|k: int| 0 <= k < top_meshes(t).len() implies #[trigger] ms[k] == top_meshes(t)[k] by {
                    lemma_top_meshes_prefix(all, i + 1);
                }
            }
            i += 1;
        }
        proof {
            assert(all.take(n as int) =~= all);
        }
        None
    }

    /// The light of the first model with id `model_id` in `deep_order`, if
    /// that model has one.
    pub fn find_light(&self, model_id: u32) -> (r: Option<&PointLight<L>>)
        ensures
            r is Some ==> exists|i: int|
                #![trigger deep_order(self.models@)[i]]
                {
                    &&& 0 <= i < deep_order(self.models@).len()
                    &&& deep_order(self.models@)[i].id == model_id
                    &&& forall|j: int| 0 <= j < i ==> deep_order(self.models@)[j].id != model_id
                    &&& deep_order(self.models@)[i].light == Some(*r.unwrap())
                },
            r is None ==> forall|i: int|
                0 <= i < deep_order(self.models@).len() && (#[trigger] deep_order(self.models@)[i]).id == model_id
                    ==> exists|j: int| 0 <= j <= i && deep_order(self.models@)[j].id == model_id
                    && deep_order(self.models@)[j].light is None,
    {
        let models = self.iter_models_deep();
        let ghost all = derefs(models@);
        let n = models.len();
        let mut i: usize = 0;
        while i < n
            invariant
                n == models@.len(),
                i <= n,
                all == derefs(models@),
                all == deep_order(self.models@),
                forall|j: int| 0 <= j < i ==> (#[trigger] all[j]).id != model_id,
            decreases n - i,
        {
            let model = models[i];
            proof {
                assert(all[i as int] == *model);
            }
            if model.id == model_id {
                return match &model.light {
                    Some(l) => Some(l),
                    None => {
                        proof {
                            assert forall|k: int|
                                0 <= k < all.len() && (#[trigger] all[k]).id == model_id implies exists|j: int|
                                0 <= j <= k && all[j].id == model_id && all[j].light is None by {
                                assert(k >= i);
                                assert(all[i as int].light is None);
                            }
                        }
                        None
                    },
                };
            }
            i += 1;
        }
        None
    }

    /// Whether every dirty light of a root model has a slot in the light
    /// array whose byte offset fits in a `u64` (see `lights_in_range`).
    pub fn lights_fit(&self) -> (r: bool)
        ensures
            r == lights_in_range(self.models@, self.light_buffer.count(), self.light_buffer.elem_size()),
    {
        lights_fit_in(&self.models, self.light_buffer.len(), self.light_buffer.elem_size_bytes())
    }

    /// Whether every mesh of a root model has its info in the mesh array
    /// (see `wf`).
    pub fn is_wf(&self) -> (r: bool)
        ensures
            r == self.wf(),
    {
        let meshes = self.iter_meshes();
        let ghost tm = top_meshes(self.models@);
        let count = self.mesh_buffer.len();
        let n = meshes.len();
        let mut i: usize = 0;
        while i < n
            invariant
                n == meshes@.len(),
                i <= n,
                derefs(meshes@) == tm,
                tm == top_meshes(self.models@),
                count == self.mesh_buffer.array().count(),
                forall|j: int|
                    0 <= j < i ==> self.mesh_buffer.index_map().contains_key(#[trigger] tm[j].id)
                        && self.mesh_buffer.index_map()[tm[j].id] < count,
            decreases n - i,
        {
            let id = meshes[i].id;
            proof {
                assert(tm[i as int] == *meshes@[i as int]);
            }
            match self.mesh_buffer.get(&id) {
                Some(k) => {
                    if *k >= count {
                        return false;
                    }
                },
                None => {
                    return false;
                },
            }
            i += 1;
        }
        true
    }

    /// Whether `other` can be joined into this scene (see `joinable`).
    pub fn can_join(&self, other: &Scene<G, L, T>) -> (r: bool)
        ensures
            r == joinable(*self, *other),
    {
        if !self.is_wf() {
            return false;
        }
        let mesh_count = other.iter_meshes().len();
        if !self.mesh_buffer.can_push_each_exec(mesh_count) {
            return false;
        }
        let lights = root_light_count(&other.models);
        if !self.light_buffer.can_push_each_exec(lights) {
            return false;
        }
        proof {
            lemma_pushes(self.light_buffer, lights as nat);
            pushes(self.light_buffer, lights as nat).lemma_bounds();
            lemma_lights_in_range_concat(
                self.models@,
                other.models@,
                (self.light_buffer.count() + lights) as nat,
                self.light_buffer.elem_size(),
            );
        }
        let count = self.light_buffer.len() + lights as u64;
        let es = self.light_buffer.elem_size_bytes();
        lights_fit_in(&self.models, count, es) && lights_fit_in(&other.models, count, es)
    }

    /// Whether `model` can be added under `parent_id` (see `addable`).
    pub fn can_add_model(&self, model: &Model<G, L, T>, parent_id: Option<u32>) -> (r: bool)
        ensures
            r == addable(*self, *model, parent_id),
    {
        if !self.is_wf() {
            return false;
        }
        match parent_id {
            Some(p) => {
                let mut found = false;
                let mut i: usize = 0;
                while i < self.models.len()
                    invariant
                        i <= self.models@.len(),
                        found <==> exists|j: int| 0 <= j < i && (#[trigger] self.models@[j]).id == p,
                    decreases self.models@.len() - i,
                {
                    if self.models[i].id == p {
                        found = true;
                    }
                    i += 1;
                }
                if !found {
                    return false;
                }
            },
            None => {},
        }
        if !self.mesh_buffer.can_push_each_exec(model.meshes.len()) {
            return false;
        }
        let mut count = self.light_buffer.len();
        if model.light.is_some() {
            proof {
                assert(pushes(self.light_buffer, 0) == self.light_buffer);
                assert(can_push_each(self.light_buffer, 0));
                assert(can_push_each(self.light_buffer, 1) == self.light_buffer.can_push(1));
            }
            if !self.light_buffer.can_push_each_exec(1) {
                return false;
            }
            count = count + 1;
        }
        let es = self.light_buffer.elem_size_bytes();
        proof {
            lemma_lights_in_range_concat(self.models@, seq![*model], count as nat, es as nat);
            assert(self.models@.push(*model) =~= self.models@ + seq![*model]);
            assert(seq![*model][0] == *model);
        }
        if !lights_fit_in(&self.models, count, es) {
            return false;
        }
        match parent_id {
            Some(_) => true,
            None => light_fits(&model.light, count, es),
        }
    }

    /// The meshes of the root models, root after root.
    pub fn iter_meshes(&self) -> (r: Vec<&Mesh<G>>)
        ensures
            derefs(r@) == top_meshes(self.models@),
    {
        root_meshes(&self.models)
    }

    /// The first model with id `model_id` in the deep walk of the scene.
    pub fn find_model(&self, model_id: u32) -> (r: Option<&Model<G, L, T>>)
        ensures
            r is Some <==> exists|k: int| first_with_id(deep_order(self.models@), model_id, k),
            r matches Some(m) ==> *m == first_deep(self.models@, model_id),
    {
        let all = self.iter_models_deep();
        let ghost d = deep_order(self.models@);
        let mut i: usize = 0;
        while i < all.len()
            invariant
                d == deep_order(self.models@),
                derefs(all@) == d,
                i <= all@.len(),
                forall|j: int| 0 <= j < i ==> d[j].id != model_id,
            decreases all@.len() - i,
        {
            proof {
                assert(d[i as int] == *all@[i as int]);
            }
            if all[i].id == model_id {
                proof {
                    assert(first_with_id(d, model_id, i as int));
                    let k = choose|k: int| first_with_id(d, model_id, k);
                    assert(k == i);
                }
                return Some(all[i]);
            }
            i += 1;
        }
        None
    }

    /// All models of the scene in deep-walk order (see `deep_order`).
    pub fn iter_models_deep(&self) -> (r: Vec<&Model<G, L, T>>)
        ensures
            derefs(r@) == deep_order(self.models@),
    {
        self.models.iter_deep()
    }

    /// Adds `model` under the first root with id `parent_id`, or as a new
    /// root without a parent, appends its mesh infos and light, then
    /// rewrites the dirty root meshes and lights.
    pub fn add_model(&mut self, model: Model<G, L, T>, parent_id: Option<u32>) -> (ops: Vec<BufferWrite>)
        requires
            addable(*old(self), model, parent_id),
        ensures
            model_added(*old(self), model, parent_id, *final(self), ops@),
            final(self).wf(),
    {
        let ghost old_models = self.models@;
        let ghost roots = attach_roots(old_models, model, parent_id);
        let ghost c0 = self.mesh_buffer.array().count();
        let ghost map0 = self.mesh_buffer.index_map();
        let mut ops: Vec<BufferWrite> = Vec::new();
        self.push_model(&model, &mut ops);
        proof {
            old(self).mesh_buffer.array().lemma_bounds();
            lemma_pushes(old(self).mesh_buffer.array(), model.meshes@.len());
            pushes(old(self).mesh_buffer.array(), model.meshes@.len()).lemma_bounds();
            if model.light is Some {
                old(self).light_buffer.lemma_pushed(1);
            }
            lemma_meshes_mapped_after_push(top_meshes(old_models), map0, c0, model.meshes@);
        }
        let ghost k: int = 0;
        match parent_id {
            Some(pid) => {
                let mut i: usize = 0;
                while i < self.models.len() && self.models[i].id != pid
                    invariant
                        self.models@ == old_models,
                        i <= self.models@.len(),
                        forall|j: int| 0 <= j < i ==> self.models@[j].id != pid,
                        exists|j: int| 0 <= j < old_models.len() && old_models[j].id == pid,
                    decreases self.models.len() - i,
                {
                    i += 1;
                }
                proof {
                    assert(first_with_id(old_models, pid, i as int));
                    k = choose|k: int| first_with_id(old_models, pid, k);
                    assert(k == i);
                }
                self.models[i].children.push(model);
                proof {
                    assert(same_roots(self.models@, old_models));
                    lemma_same_root_meshes(self.models@, old_models);
                    lemma_same_root_lights(self.models@, old_models, self.light_buffer.elem_size());
                }
            },
            None => {
                self.models.push(model);
                proof {
                    lemma_top_meshes_push(old_models, model);
                }
            },
        }
        let ghost attached = self.models@;
        let mut mesh_ops = self.update_meshes();
        proof {
            assert(same_root_lights(self.models@, attached));
            lemma_same_root_lights(self.models@, attached, self.light_buffer.elem_size());
            lemma_same_root_lights(attached, roots, self.light_buffer.elem_size());
        }
        ops.append(&mut mesh_ops);
        let ghost mid = self.models@;
        let mut light_ops = self.update_lights();
        ops.append(&mut light_ops);
        proof {
            assert(same_root_meshes(self.models@, mid));
            lemma_same_root_meshes(self.models@, mid);
        }
        ops
    }

    /// Appends the infos of `model`'s meshes and its light, if any.
    fn push_model(&mut self, model: &Model<G, L, T>, ops: &mut Vec<BufferWrite>)
        requires
            can_push_each(old(self).mesh_buffer.array(), model.meshes@.len()),
            model.light is Some ==> old(self).light_buffer.can_push(1),
        ensures
            final(self).id == old(self).id,
            final(self).models == old(self).models,
            final(self).name == old(self).name,
            final(self).mesh_buffer.array() == pushes(old(self).mesh_buffer.array(), model.meshes@.len()),
            final(self).mesh_buffer.index_map() == keys_pushed(
                old(self).mesh_buffer.index_map(),
                model.meshes@,
                old(self).mesh_buffer.array().count(),
            ),
            final(self).light_buffer == if model.light is Some {
                old(self).light_buffer.pushed(1)
            } else {
                old(self).light_buffer
            },
            final(ops)@ == old(ops)@ + model_push_ops(
                old(self).mesh_buffer.array(),
                old(self).light_buffer,
                *model,
            ),
    {
        let ghost a0 = self.mesh_buffer.array();
        let ghost map0 = self.mesh_buffer.index_map();
        let ghost ops0 = ops@;
        let n = model.meshes.len();
        let mut j: usize = 0;
        while j < n
            invariant
                n == model.meshes@.len(),
                j <= n,
                can_push_each(a0, n as nat),
                self.id == old(self).id,
                self.models == old(self).models,
                self.name == old(self).name,
                self.light_buffer == old(self).light_buffer,
                self.mesh_buffer.array() == pushes(a0, j as nat),
                self.mesh_buffer.index_map() == keys_pushed(map0, model.meshes@.take(j as int), a0.count()),
                ops@ == ops0 + mesh_push_ops(a0, model.meshes@.take(j as int)),
            decreases n - j,
        {
            proof {
                lemma_can_push_each_prefix(a0, (j + 1) as nat, n as nat);
                lemma_pushes(a0, j as nat);
            }
            let id = model.meshes[j].id;
            let plan = self.mesh_buffer.push(id, 1);
            ops.push(BufferWrite::PushMesh { mesh_id: id, plan });
            proof {
                let t = model.meshes@.take(j + 1);
                assert(t.drop_last() =~= model.meshes@.take(j as int));
                assert(t.last() == model.meshes@[j as int]);
            }
            j += 1;
        }
        proof {
            assert(model.meshes@.take(n as int) =~= model.meshes@);
        }
        if model.light.is_some() {
            let plan = self.light_buffer.push(1);
            ops.push(BufferWrite::PushLight { model_id: model.id, plan });
        }
    }
}

} // verus!
