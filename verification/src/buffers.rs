use std::collections::HashMap;
use vstd::prelude::*;

verus! {

broadcast use vstd::std_specs::hash::group_hash_axioms;

/// How many elements a new buffer has room for.
pub const PREALLOC_COUNT: u64 = 16;

/// The reallocation that must happen before a write: a buffer of
/// `new_size` bytes replaces the old one, and the first `copy_size` bytes of
/// the old one are copied into it.
#[derive(Debug, Clone, Copy, PartialEq, Eq, Structural)]
pub struct Resize {
    pub new_capacity: u64,
    pub new_size: u64,
    pub copy_size: u64,
}

/// What the GPU side must do to append elements: reallocate if `resize`
/// says so, then write the new elements starting at byte `write_offset`.
#[derive(Debug, Clone, Copy, PartialEq, Eq, Structural)]
pub struct PushPlan {
    pub resize: Option<Resize>,
    pub write_offset: u64,
}

/// Bookkeeping of a growable array of fixed-size elements that lives on the
/// GPU: how many elements it holds, how many it has room for, and where in
/// the buffer each element goes.
#[derive(Debug)]
pub struct DynamicBufferArray {
    count: u64,
    capacity: u64,
    dirty: bool,
    elem_size: u64,
    label: Option<String>,
}

/// Whether appending `n` elements to `count` out of `capacity` needs the
/// buffer grown first.
pub open spec fn needs_resize(count: int, capacity: int, n: int) -> bool {
    count + n > capacity
}

/// The capacity a buffer of capacity `cap` grows to so that `need`
/// elements fit: `cap` doubled until it reaches `need` (`need` itself when
/// `cap` is 0).
pub open spec fn grown(cap: nat, need: nat) -> nat
    decreases (if need > cap { need - cap } else { 0 }),
{
    if need <= cap {
        cap
    } else if cap == 0 {
        need
    } else {
        grown(2 * cap, need)
    }
}

/// A grown capacity holds what it must and never shrinks; one that had to
/// grow from a nonzero capacity at least doubled.
pub proof fn lemma_grown(cap: nat, need: nat)
    ensures
        grown(cap, need) >= need,
        grown(cap, need) >= cap,
        need <= cap ==> grown(cap, need) == cap,
        need > cap && cap > 0 ==> grown(cap, need) >= 2 * cap && grown(cap, need) == grown(2 * cap, need),
    decreases (if need > cap { need - cap } else { 0 }),
{
    if need > cap && cap > 0 {
        lemma_grown(2 * cap, need);
    }
}

impl DynamicBufferArray {
    pub closed spec fn count(&self) -> nat {
        self.count as nat
    }

    pub closed spec fn capacity(&self) -> nat {
        self.capacity as nat
    }

    pub closed spec fn elem_size(&self) -> nat {
        self.elem_size as nat
    }

    /// Set once the buffer was reallocated.
    pub closed spec fn is_dirty(&self) -> bool {
        self.dirty
    }

    pub closed spec fn label(&self) -> Option<String> {
        self.label
    }

    /// The capacity after making room for `n` more elements.
    pub open spec fn grown_capacity(&self, n: nat) -> nat {
        grown(self.capacity(), self.count() + n)
    }

    /// Whether appending `n` elements stays within the machine's integers.
    pub open spec fn can_push(&self, n: nat) -> bool {
        &&& self.count() + n <= u64::MAX
        &&& self.count() * self.elem_size() <= u64::MAX
        &&& needs_resize(self.count() as int, self.capacity() as int, n as int) ==> {
            &&& self.grown_capacity(n) <= u64::MAX
            &&& self.grown_capacity(n) * self.elem_size() <= u64::MAX
        }
    }

    /// The array after appending `n` elements.
    pub closed spec fn pushed(self, n: nat) -> Self {
        if needs_resize(self.count as int, self.capacity as int, n as int) {
            DynamicBufferArray {
                count: (self.count + n) as u64,
                capacity: grown(self.capacity as nat, (self.count + n) as nat) as u64,
                dirty: true,
                ..self
            }
        } else {
            DynamicBufferArray { count: (self.count + n) as u64, ..self }
        }
    }

    /// What the GPU side does to append `n` elements.
    pub closed spec fn push_plan(self, n: nat) -> PushPlan {
        PushPlan {
            resize: if needs_resize(self.count as int, self.capacity as int, n as int) {
                Some(
                    Resize {
                        new_capacity: grown(self.capacity as nat, (self.count + n) as nat) as u64,
                        new_size: (grown(self.capacity as nat, (self.count + n) as nat) * self.elem_size) as u64,
                        copy_size: (self.count * self.elem_size) as u64,
                    },
                )
            } else {
                None
            },
            write_offset: (self.count * self.elem_size) as u64,
        }
    }

    /// A new, empty array (see `new`).
    pub closed spec fn fresh(label: Option<String>, elem_size: nat) -> Self {
        DynamicBufferArray { count: 0, capacity: PREALLOC_COUNT, dirty: false, elem_size: elem_size as u64, label }
    }

    /// Whether `self` and `other` agree in all but their labels.
    pub closed spec fn same_shape(self, other: Self) -> bool {
        &&& self.count == other.count
        &&& self.capacity == other.capacity
        &&& self.dirty == other.dirty
        &&& self.elem_size == other.elem_size
    }

    /// Arrays that differ only in their labels grow alike.
    pub proof fn lemma_same_shape(self, other: Self, k: nat)
        requires
            self.same_shape(other),
        ensures
            pushes(self, k).same_shape(pushes(other, k)),
            can_push_each(self, k) == can_push_each(other, k),
        decreases k,
    {
        if k > 0 {
            self.lemma_same_shape(other, (k - 1) as nat);
        }
    }

    /// Fresh arrays differ only in their labels.
    pub proof fn lemma_fresh(l1: Option<String>, l2: Option<String>, elem_size: nat)
        ensures
            Self::fresh(l1, elem_size).same_shape(Self::fresh(l2, elem_size)),
    {
    }

    /// The quantities fit in a `u64`.
    pub proof fn lemma_bounds(self)
        ensures
            self.count() <= u64::MAX,
            self.capacity() <= u64::MAX,
            self.elem_size() <= u64::MAX,
    {
    }

    /// What `pushed` and `push_plan` amount to.
    pub proof fn lemma_pushed(self, n: nat)
        requires
            self.can_push(n),
        ensures
            self.pushed(n).count() == self.count() + n,
            self.pushed(n).elem_size() == self.elem_size(),
            self.pushed(n).label() == self.label(),
            self.push_plan(n).write_offset == self.count() * self.elem_size(),
            self.pushed(n).capacity() >= self.pushed(n).count(),
            self.pushed(n).capacity() >= self.capacity(),
            if needs_resize(self.count() as int, self.capacity() as int, n as int) {
                &&& self.pushed(n).capacity() == self.grown_capacity(n)
                &&& self.pushed(n).is_dirty()
                &&& self.push_plan(n).resize == Some(
                    Resize {
                        new_capacity: self.grown_capacity(n) as u64,
                        new_size: (self.grown_capacity(n) * self.elem_size()) as u64,
                        copy_size: (self.count() * self.elem_size()) as u64,
                    },
                )
            } else {
                &&& self.pushed(n).capacity() == self.capacity()
                &&& self.pushed(n).is_dirty() == self.is_dirty()
                &&& self.push_plan(n).resize.is_none()
            },
    {
        lemma_grown(self.capacity(), self.count() + n);
    }

    /// An empty array with room for `PREALLOC_COUNT` elements of
    /// `elem_size` bytes each.
    pub fn new(label: Option<String>, elem_size: u64) -> (r: Self)
        requires
            PREALLOC_COUNT * elem_size <= u64::MAX,
        ensures
            r == Self::fresh(label, elem_size as nat),
            r.count() == 0,
            r.capacity() == PREALLOC_COUNT,
            r.elem_size() == elem_size,
            !r.is_dirty(),
            r.label() == label,
    {
        DynamicBufferArray { count: 0, capacity: PREALLOC_COUNT, dirty: false, elem_size, label }
    }

    /// The size in bytes of a buffer with room for the current capacity.
    pub fn size_in_bytes(&self) -> (r: u64)
        requires
            self.capacity() * self.elem_size() <= u64::MAX,
        ensures
            r == self.capacity() * self.elem_size(),
    {
        self.capacity * self.elem_size
    }

    /// Appends `n` elements. When they do not fit, the capacity is doubled
    /// once (the old contents are copied over and the array is marked dirty);
    /// the elements are then written right after the old ones.
    pub fn push(&mut self, n: u64) -> (plan: PushPlan)
        requires
            old(self).can_push(n as nat),
        ensures
            *final(self) == old(self).pushed(n as nat),
            plan == old(self).push_plan(n as nat),
            final(self).count() == old(self).count() + n,
            final(self).elem_size() == old(self).elem_size(),
            final(self).label() == old(self).label(),
            plan.write_offset == old(self).count() * old(self).elem_size(),
            final(self).capacity() >= final(self).count(),
            if needs_resize(old(self).count() as int, old(self).capacity() as int, n as int) {
                &&& final(self).capacity() == old(self).grown_capacity(n as nat)
                &&& final(self).is_dirty()
                &&& plan.resize == Some(
                    Resize {
                        new_capacity: old(self).grown_capacity(n as nat) as u64,
                        new_size: (old(self).grown_capacity(n as nat) * old(self).elem_size()) as u64,
                        copy_size: (old(self).count() * old(self).elem_size()) as u64,
                    },
                )
            } else {
                &&& final(self).capacity() == old(self).capacity()
                &&& final(self).is_dirty() == old(self).is_dirty()
                &&& plan.resize.is_none()
            },
        no_unwind
    {
        proof {
            self.lemma_pushed(n as nat);
        }
        let mut resize = None;
        if self.count + n > self.capacity {
            resize = Some(self.resize(self.count + n));
        }
        let write_offset = self.count * self.elem_size;
        self.count = self.count + n;
        PushPlan { resize, write_offset }
    }

    /// Grows the capacity until `need` elements fit: doubling it, or to
    /// `need` from an empty capacity.
    fn resize(&mut self, need: u64) -> (r: Resize)
        requires
            need > old(self).capacity(),
            grown(old(self).capacity(), need as nat) <= u64::MAX,
            grown(old(self).capacity(), need as nat) * old(self).elem_size() <= u64::MAX,
            old(self).count() * old(self).elem_size() <= u64::MAX,
        ensures
            *final(self) == (DynamicBufferArray {
                capacity: grown(old(self).capacity(), need as nat) as u64,
                dirty: true,
                ..*old(self)
            }),
            r == (Resize {
                new_capacity: grown(old(self).capacity(), need as nat) as u64,
                new_size: (grown(old(self).capacity(), need as nat) * old(self).elem_size()) as u64,
                copy_size: (old(self).count() * old(self).elem_size()) as u64,
            }),
        no_unwind
    {
        let ghost target = grown(self.capacity as nat, need as nat);
        proof {
            lemma_grown(self.capacity as nat, need as nat);
        }
        let mut cap = self.capacity;
        if cap == 0 {
            cap = need;
        } else {
            while cap < need
                invariant
                    0 < cap,
                    grown(cap as nat, need as nat) == target,
                    cap <= target,
                    target <= u64::MAX,
                decreases target - cap,
            {
                proof {
                    lemma_grown(cap as nat, need as nat);
                }
                cap = cap * 2;
            }
        }
        proof {
            lemma_grown(cap as nat, need as nat);
        }
        self.capacity = cap;
        let new_size = cap * self.elem_size;
        let copy_size = self.count * self.elem_size;
        self.dirty = true;
        Resize { new_capacity: cap, new_size, copy_size }
    }

    /// Byte offset at which element `index` is rewritten.
    pub fn update(&self, index: u64) -> (offset: u64)
        requires
            index < self.count(),
            index * self.elem_size() <= u64::MAX,
        ensures
            offset == index * self.elem_size(),
    {
        index * self.elem_size
    }

    /// Number of elements held.
    pub fn len(&self) -> (r: u64)
        ensures
            r == self.count(),
    {
        self.count
    }

    /// Whether `k` single-element appends stay within the machine's
    /// integers (see `can_push_each`).
    pub fn can_push_each_exec(&self, k: usize) -> (r: bool)
        ensures
            r == can_push_each(*self, k as nat),
    {
        let es = self.elem_size;
        let mut count = self.count;
        let mut cap = self.capacity;
        let mut i: usize = 0;
        while i < k
            invariant
                i <= k,
                es == self.elem_size(),
                can_push_each(*self, i as nat),
                count == pushes(*self, i as nat).count(),
                cap == pushes(*self, i as nat).capacity(),
                pushes(*self, i as nat).elem_size() == es,
            decreases k - i,
        {
            let ghost cur = pushes(*self, i as nat);
            proof {
                if !can_push_each(*self, (i + 1) as nat) {
                    lemma_can_push_each_stops(*self, (i + 1) as nat, k as nat);
                }
            }
            if count == u64::MAX {
                return false;
            }
            if count.checked_mul(es).is_none() {
                return false;
            }
            if count + 1 > cap {
                match grown_checked(cap, count + 1) {
                    None => return false,
                    Some(g) => {
                        if g.checked_mul(es).is_none() {
                            return false;
                        }
                        cap = g;
                    },
                }
            }
            proof {
                cur.lemma_pushed(1);
                assert(pushes(*self, (i + 1) as nat) == cur.pushed(1));
            }
            count = count + 1;
            i += 1;
        }
        true
    }

    /// Size in bytes of one element.
    pub fn elem_size_bytes(&self) -> (r: u64)
        ensures
            r == self.elem_size(),
    {
        self.elem_size
    }
}

/// The array after `k` single-element appends.
pub open spec fn pushes(a: DynamicBufferArray, k: nat) -> DynamicBufferArray
    decreases k,
{
    if k == 0 { a } else { pushes(a, (k - 1) as nat).pushed(1) }
}

/// Whether `k` single-element appends stay within the machine's integers.
pub open spec fn can_push_each(a: DynamicBufferArray, k: nat) -> bool
    decreases k,
{
    k == 0 || (can_push_each(a, (k - 1) as nat) && pushes(a, (k - 1) as nat).can_push(1))
}

/// Appends never shrink the element size nor change the label, and add one
/// element each.
pub proof fn lemma_pushes(a: DynamicBufferArray, k: nat)
    requires
        can_push_each(a, k),
    ensures
        pushes(a, k).count() == a.count() + k,
        pushes(a, k).elem_size() == a.elem_size(),
        pushes(a, k).label() == a.label(),
        pushes(a, k).capacity() >= a.capacity(),
    decreases k,
{
    if k > 0 {
        lemma_pushes(a, (k - 1) as nat);
        pushes(a, (k - 1) as nat).lemma_pushed(1);
    }
}

/// Appends one after another are appends counted from the start.
pub proof fn lemma_can_push_each_prefix(a: DynamicBufferArray, j: nat, k: nat)
    requires
        can_push_each(a, k),
        j <= k,
    ensures
        can_push_each(a, j),
    decreases k,
{
    if j < k {
        lemma_can_push_each_prefix(a, j, (k - 1) as nat);
    }
}

/// `x` appends followed by `y` appends are `x + y` appends.
pub proof fn lemma_pushes_add(a: DynamicBufferArray, x: nat, y: nat)
    ensures
        pushes(pushes(a, x), y) == pushes(a, x + y),
    decreases y,
{
    if y > 0 {
        lemma_pushes_add(a, x, (y - 1) as nat);
    }
}

/// A push writes past the elements already held and within the buffer as
/// it is after the push.
pub proof fn lemma_push_in_bounds(a: DynamicBufferArray, n: nat)
    requires
        a.can_push(n),
    ensures
        a.push_plan(n).write_offset == a.count() * a.elem_size(),
        a.pushed(n).count() <= a.pushed(n).capacity(),
        a.push_plan(n).write_offset + n * a.elem_size() <= a.pushed(n).capacity() * a.elem_size(),
{
    a.lemma_pushed(n);
    let c = a.count();
    let cap = a.pushed(n).capacity();
    let es = a.elem_size();
    assert(c * es + n * es <= cap * es) by (nonlinear_arith)
        requires
            c + n <= cap,
    ;
}

/// `grown(cap, need)`, when it fits in a `u64`.
fn grown_checked(cap: u64, need: u64) -> (r: Option<u64>)
    ensures
        r == (if grown(cap as nat, need as nat) <= u64::MAX {
            Some(grown(cap as nat, need as nat) as u64)
        } else {
            None::<u64>
        }),
{
    proof {
        lemma_grown(cap as nat, need as nat);
    }
    if need <= cap {
        return Some(cap);
    }
    if cap == 0 {
        return Some(need);
    }
    let ghost target = grown(cap as nat, need as nat);
    let mut c = cap;
    while c < need
        invariant
            0 < c,
            target == grown(cap as nat, need as nat),
            grown(c as nat, need as nat) == target,
            c <= target,
        decreases target - c,
    {
        proof {
            lemma_grown(c as nat, need as nat);
        }
        if c >= 0x8000_0000_0000_0000 {
            return None;
        }
        c = c * 2;
    }
    proof {
        lemma_grown(c as nat, need as nat);
    }
    Some(c)
}

/// Room for `j` appends is gone once it is gone for fewer.
proof fn lemma_can_push_each_stops(a: DynamicBufferArray, j: nat, k: nat)
    requires
        j <= k,
        !can_push_each(a, j),
    ensures
        !can_push_each(a, k),
{
    if can_push_each(a, k) {
        lemma_can_push_each_prefix(a, j, k);
    }
}

/// The array after appending `ns[0]` elements, then `ns[1]`, and so on.
pub open spec fn pushed_all(a: DynamicBufferArray, ns: Seq<nat>) -> DynamicBufferArray
    decreases ns.len(),
{
    if ns.len() == 0 {
        a
    } else {
        pushed_all(a, ns.drop_last()).pushed(ns.last())
    }
}

/// Whether each of those appends stays within the machine's integers.
pub open spec fn can_push_all(a: DynamicBufferArray, ns: Seq<nat>) -> bool
    decreases ns.len(),
{
    ns.len() == 0 || (can_push_all(a, ns.drop_last()) && pushed_all(a, ns.drop_last()).can_push(ns.last()))
}

/// The sum of the numbers in `ns`.
pub open spec fn total(ns: Seq<nat>) -> nat
    decreases ns.len(),
{
    if ns.len() == 0 {
        0
    } else {
        total(ns.drop_last()) + ns.last()
    }
}

/// After any sequence of appends the array holds as many elements as were
/// appended in all (rewrites change nothing), keeps its element size and
/// label, and has room for all of them.
pub proof fn lemma_pushed_all(a: DynamicBufferArray, ns: Seq<nat>)
    requires
        can_push_all(a, ns),
        a.count() <= a.capacity(),
    ensures
        pushed_all(a, ns).count() == a.count() + total(ns),
        pushed_all(a, ns).elem_size() == a.elem_size(),
        pushed_all(a, ns).label() == a.label(),
        pushed_all(a, ns).count() <= pushed_all(a, ns).capacity(),
    decreases ns.len(),
{
    if ns.len() > 0 {
        lemma_pushed_all(a, ns.drop_last());
        pushed_all(a, ns.drop_last()).lemma_pushed(ns.last());
    }
}

/// Pushing elements one at a time onto an array that holds no more than
/// it has room for never outgrows it: the buffer is always large enough.
pub proof fn lemma_single_pushes_in_bounds(a: DynamicBufferArray, k: nat)
    requires
        can_push_each(a, k),
        a.count() <= a.capacity(),
        a.capacity() >= 1,
    ensures
        pushes(a, k).count() <= pushes(a, k).capacity(),
        pushes(a, k).capacity() >= 1,
    decreases k,
{
    if k > 0 {
        lemma_single_pushes_in_bounds(a, (k - 1) as nat);
        pushes(a, (k - 1) as nat).lemma_pushed(1);
    }
}

/// A fresh array holds nothing and has room.
pub proof fn lemma_fresh_in_bounds(label: Option<String>, elem_size: nat)
    ensures
        DynamicBufferArray::fresh(label, elem_size).count() <= DynamicBufferArray::fresh(label, elem_size).capacity(),
        DynamicBufferArray::fresh(label, elem_size).capacity() >= 1,
{
}

/// Room for `x + y` appends leaves room for `y` more after the first `x`.
pub proof fn lemma_can_push_each_add(a: DynamicBufferArray, x: nat, y: nat)
    requires
        can_push_each(a, x + y),
    ensures
        can_push_each(pushes(a, x), y),
    decreases y,
{
    if y > 0 {
        lemma_can_push_each_prefix(a, (x + y - 1) as nat, x + y);
        lemma_can_push_each_add(a, x, (y - 1) as nat);
        lemma_pushes_add(a, x, (y - 1) as nat);
    }
}

/// A `DynamicBufferArray` that also remembers, for each key, the index of
/// the element pushed for it last.
#[derive(Debug)]
pub struct DynamicBufferMap {
    array: DynamicBufferArray,
    map: HashMap<u32, u64>,
}

impl DynamicBufferMap {
    #[verifier::type_invariant]
    spec fn inv(self) -> bool {
        forall|k: u32|
            #[trigger] self.map@.contains_key(k) ==> {
                &&& self.map@[k] <= self.array.count
                &&& self.map@[k] * self.array.elem_size <= u64::MAX
            }
    }

    pub closed spec fn array(&self) -> DynamicBufferArray {
        self.array
    }

    /// Key to element index.
    pub closed spec fn index_map(&self) -> Map<u32, u64> {
        self.map@
    }

    pub fn new(label: Option<String>, elem_size: u64) -> (r: Self)
        requires
            PREALLOC_COUNT * elem_size <= u64::MAX,
        ensures
            r.array() == DynamicBufferArray::fresh(label, elem_size as nat),
            r.array().count() == 0,
            r.array().capacity() == PREALLOC_COUNT,
            r.array().elem_size() == elem_size,
            !r.array().is_dirty(),
            r.array().label() == label,
            r.index_map() == Map::<u32, u64>::empty(),
    {
        DynamicBufferMap { array: DynamicBufferArray::new(label, elem_size), map: HashMap::new() }
    }

    /// Appends `n` elements for `key`; `key` now maps to the index of the
    /// first of them.
    pub fn push(&mut self, key: u32, n: u64) -> (plan: PushPlan)
        requires
            old(self).array().can_push(n as nat),
        ensures
            final(self).index_map() == old(self).index_map().insert(key, old(self).array().count() as u64),
            final(self).array() == old(self).array().pushed(n as nat),
            plan == old(self).array().push_plan(n as nat),
    {
        proof {
            use_type_invariant(&*self);
            self.array.lemma_pushed(n as nat);
        }
        let index = self.array.len();
        let mut map = HashMap::new();
        std::mem::swap(&mut map, &mut self.map);
        map.insert(key, index);
        let plan = self.array.push(n);
        self.map = map;
        plan
    }

    /// Byte offset at which the element of `key` is rewritten.
    pub fn update(&self, key: &u32) -> (offset: u64)
        requires
            self.index_map().contains_key(*key),
            self.index_map()[*key] < self.array().count(),
        ensures
            offset == self.index_map()[*key] * self.array().elem_size(),
    {
        proof {
            use_type_invariant(self);
        }
        let index = *self.map.get(key).unwrap();
        self.array.update(index)
    }

    /// The element index of `key`, if it was ever pushed.
    pub fn get(&self, key: &u32) -> (r: Option<&u64>)
        ensures
            r == (if self.index_map().contains_key(*key) { Some(&self.index_map()[*key]) } else { None }),
    {
        self.map.get(key)
    }

    /// Number of elements held.
    pub fn len(&self) -> (r: u64)
        ensures
            r == self.array().count(),
    {
        self.array.len()
    }

    /// Whether `k` single-element appends stay within the machine's
    /// integers (see `can_push_each`).
    pub fn can_push_each_exec(&self, k: usize) -> (r: bool)
        ensures
            r == can_push_each(self.array(), k as nat),
    {
        self.array.can_push_each_exec(k)
    }
}

} // verus!
