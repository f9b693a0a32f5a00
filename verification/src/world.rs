//! The world: registered components with their archetype layouts, the rows
//! of every archetype, and the entities that own those rows.
use vstd::prelude::*;
use core::marker::PhantomData;
use vstd::layout::{size_of, align_of};
use crate::layout::{ArchetypeLayout, LayoutView, layout_wf, root_layout, derived_layout, derived_layout_fits, root_layout_of, derived_layout_of};
use crate::slab::Slab;

verus! {

/// An ID of a piece of [`Entity`] data and of an archetype.
///
/// Each component defines not only the component itself, but also an
/// archetype: the component together with all base components along its
/// chain of bases. Each entity belongs to a specific archetype.
#[derive(Debug, Hash)]
#[verifier::reject_recursive_types(E)]
pub struct Component<E: ?Sized + 'static>(usize, PhantomData<&'static E>);

/// Unique identifier of an entity in a [`World`].
///
/// This is just an ID, not the entity itself; the entity it refers to may no
/// longer exist in the world.
#[derive(Debug, Hash)]
#[verifier::reject_recursive_types(E)]
pub struct Entity<E: ?Sized + 'static> {
    index: usize,
    guard: usize,
    phantom: PhantomData<&'static E>,
}

impl<E: ?Sized> View for Component<E> {
    type V = usize;

    closed spec fn view(&self) -> usize {
        self.0
    }
}

impl<E: ?Sized> View for Entity<E> {
    type V = (usize, usize);

    /// The entity's record slot and the guard that tells its occupants apart.
    closed spec fn view(&self) -> (usize, usize) {
        (self.index, self.guard)
    }
}

impl<E: ?Sized> Entity<E> {
    /// Two entity IDs are the same value exactly when they name the same
    /// record slot with the same guard.
    pub proof fn lemma_view_injective(a: Entity<E>, b: Entity<E>)
        ensures
            a@ == b@ <==> a == b,
    {
    }
}

impl<E: ?Sized> Clone for Component<E> {
    fn clone(&self) -> (r: Self)
        ensures
            r == *self,
    {
        Component(self.0, PhantomData)
    }
}

impl<E: ?Sized> Copy for Component<E> {

}

impl<E: ?Sized> PartialEq for Component<E> {
    fn eq(&self, other: &Self) -> (r: bool) {
        self.0 == other.0
    }
}

impl<E: ?Sized> vstd::std_specs::cmp::PartialEqSpecImpl for Component<E> {
    open spec fn obeys_eq_spec() -> bool {
        true
    }

    open spec fn eq_spec(&self, other: &Self) -> bool {
        self@ == other@
    }
}

impl<E: ?Sized> Eq for Component<E> {

}

impl<E: ?Sized> Clone for Entity<E> {
    fn clone(&self) -> (r: Self)
        ensures
            r == *self,
    {
        Entity { index: self.index, guard: self.guard, phantom: PhantomData }
    }
}

impl<E: ?Sized> Copy for Entity<E> {

}

impl<E: ?Sized> PartialEq for Entity<E> {
    fn eq(&self, other: &Self) -> (r: bool) {
        self.index == other.index && self.guard == other.guard
    }
}

impl<E: ?Sized> vstd::std_specs::cmp::PartialEqSpecImpl for Entity<E> {
    open spec fn obeys_eq_spec() -> bool {
        true
    }

    open spec fn eq_spec(&self, other: &Self) -> bool {
        self@ == other@
    }
}

impl<E: ?Sized> Eq for Entity<E> {

}

/// What the world knows of an entity: its archetype, and the value of each
/// component of the archetype, by the component's depth in the chain.
pub struct EntityView<V> {
    pub archetype: usize,
    pub values: Seq<Option<V>>,
}

/// The world as numbers and values: the layout of every registered
/// component's archetype, and every live entity.
pub struct WorldView<V> {
    pub layouts: Seq<LayoutView>,
    pub entities: Map<(usize, usize), EntityView<V>>,
}

/// The row storage of an archetype: how many rows it has, how many it has
/// room for, and the vacated rows, the next one to be reused first.
pub struct StorageView {
    pub len: nat,
    pub capacity: nat,
    pub free: Seq<usize>,
}

/// The guard after `g`: the next one, and 1 again after `usize::MAX`.
pub open spec fn advance_guard(g: usize) -> usize {
    if g == usize::MAX {
        1
    } else {
        (g + 1) as usize
    }
}

/// The guard after `k` creations that started from guard `g`.
pub open spec fn advance_guard_n(g: usize, k: nat) -> usize
    decreases k,
{
    if k == 0 {
        g
    } else {
        advance_guard(advance_guard_n(g, (k - 1) as nat))
    }
}

/// The guard after `k` creations, fewer than `usize::MAX`, counted from a
/// nonzero guard `g`: it runs up from `g` and then on from 1.
pub proof fn lemma_advance_guard_n(g: usize, k: nat)
    requires
        1 <= g,
        k < usize::MAX,
    ensures
        advance_guard_n(g, k) == if g + k <= usize::MAX {
            g + k
        } else {
            g + k - usize::MAX
        },
    decreases k,
{
    if k > 0 {
        lemma_advance_guard_n(g, (k - 1) as nat);
    }
}

/// A guard is not given out again before `usize::MAX` more entities were
/// created: so an entity created fewer than `usize::MAX` creations after
/// another has another ID, whether or not the first one was dropped.
pub proof fn lemma_guard_not_reissued(g: usize, k: nat)
    requires
        1 <= g,
        0 < k < usize::MAX,
    ensures
        advance_guard_n(g, k) != g,
        advance_guard_n(g, k) >= 1,
{
    lemma_advance_guard_n(g, k);
}

/// The capacity that a full storage grows to: one row at first, then twice
/// as many rows, saturating at `usize::MAX`.
pub open spec fn grown_capacity(capacity: nat) -> nat {
    if capacity == 0 {
        1
    } else if capacity * 2 > usize::MAX {
        usize::MAX as nat
    } else {
        capacity * 2
    }
}

impl StorageView {
    /// Whether placing a row needs the storage to grow.
    pub open spec fn full(self) -> bool {
        self.free.len() == 0 && self.len == self.capacity
    }

    /// Whether a row can be placed: a vacated row is reused, or there is room,
    /// or the storage can grow to a block of rows whose size in bytes is a
    /// valid allocation size for the row alignment.
    pub open spec fn can_place(self, row_size: int, row_align: int) -> bool {
        self.full() ==> {
            &&& self.capacity < usize::MAX
            &&& row_size * grown_capacity(self.capacity) <= isize::MAX as int - (isize::MAX as int % row_align)
        }
    }

    /// The storage after a row was placed.
    pub open spec fn placed(self) -> StorageView {
        if self.free.len() > 0 {
            StorageView { free: self.free.drop_first(), ..self }
        } else if self.len < self.capacity {
            StorageView { len: self.len + 1, ..self }
        } else {
            StorageView { len: self.len + 1, capacity: grown_capacity(self.capacity), ..self }
        }
    }

    /// The storage after row `row` was vacated.
    pub open spec fn vacated(self, row: usize) -> StorageView {
        StorageView { free: seq![row].add(self.free), ..self }
    }

    /// The row that the next placement fills.
    pub open spec fn next_row(self) -> usize {
        if self.free.len() > 0 {
            self.free[0]
        } else {
            self.len as usize
        }
    }
}

impl<V> WorldView<V> {
    pub open spec fn is_component(self, c: usize) -> bool {
        c < self.layouts.len()
    }

    /// Whether component `c` belongs to the archetype of component `a`: it
    /// is `a` itself, or the base of `a` at `c`'s depth.
    pub open spec fn member(self, c: usize, a: usize) -> bool {
        ||| c == a
        ||| {
            let d = self.layouts[c as int].index;
            &&& d < self.layouts[a as int].except_self.len()
            &&& self.layouts[a as int].except_self[d] == c
        }
    }

    /// The components of the archetype of `a`, by depth.
    pub open spec fn chain(self, a: usize) -> Seq<usize> {
        self.layouts[a as int].except_self.push(a)
    }

    pub open spec fn contains(self, e: (usize, usize)) -> bool {
        self.entities.contains_key(e)
    }

    pub open spec fn archetype(self, e: (usize, usize)) -> usize {
        self.entities[e].archetype
    }

    /// The value of component `c` of entity `e`, if `c` belongs to the
    /// entity's archetype and the value was added.
    pub open spec fn value(self, e: (usize, usize), c: usize) -> Option<V> {
        if self.member(c, self.archetype(e)) {
            self.entities[e].values[self.layouts[c as int].index]
        } else {
            None
        }
    }

    /// Whether every component of entity `e`'s archetype has a value.
    pub open spec fn complete(self, e: (usize, usize)) -> bool {
        forall|d: int| 0 <= d < self.entities[e].values.len() ==> #[trigger] self.entities[e].values[d] is Some
    }

    /// The world after the value of component `c` of entity `e` became `v`.
    pub open spec fn set_value(self, e: (usize, usize), c: usize, v: Option<V>) -> WorldView<V> {
        WorldView {
            entities: self.entities.insert(
                e,
                EntityView {
                    values: self.entities[e].values.update(self.layouts[c as int].index, v),
                    ..self.entities[e]
                },
            ),
            ..self
        }
    }

    /// The world after every entity of `d` lost its value of component `c`.
    pub open spec fn without_values(self, c: usize, d: Set<(usize, usize)>) -> WorldView<V> {
        WorldView {
            entities: Map::new(
                |k: (usize, usize)| self.entities.contains_key(k),
                |k: (usize, usize)|
                    if d.contains(k) && 0 <= self.layouts[c as int].index < self.entities[k].values.len() {
                        EntityView {
                            values: self.entities[k].values.update(self.layouts[c as int].index, None),
                            ..self.entities[k]
                        }
                    } else {
                        self.entities[k]
                    },
            ),
            ..self
        }
    }

    /// The world after entity `e` was created in the archetype of `a`, with
    /// no values yet.
    pub open spec fn with_entity(self, e: (usize, usize), a: usize) -> WorldView<V> {
        WorldView {
            entities: self.entities.insert(
                e,
                EntityView {
                    archetype: a,
                    values: Seq::new((self.layouts[a as int].index + 1) as nat, |d: int| None),
                },
            ),
            ..self
        }
    }

    /// The world after entity `e` and its values were dropped.
    pub open spec fn without_entity(self, e: (usize, usize)) -> WorldView<V> {
        WorldView { entities: self.entities.remove(e), ..self }
    }

    /// The world after a component with layout `l` was registered.
    pub open spec fn with_component(self, l: LayoutView) -> WorldView<V> {
        WorldView { layouts: self.layouts.push(l), ..self }
    }

    /// The layout of component `a` is well formed, its bases come before it,
    /// each base sits at its own depth with the bases above it, and the
    /// layout is computed from its base's as registration computes it.
    pub open spec fn layout_ok(self, a: int) -> bool {
        let l = self.layouts[a];
        &&& layout_wf(l)
        &&& forall|i: int|
            0 <= i < l.index ==> {
                &&& #[trigger] l.except_self[i] < a
                &&& self.layouts[l.except_self[i] as int].index == i
                &&& self.layouts[l.except_self[i] as int].except_self == l.except_self.take(i)
            }
        &&& if l.index == 0 {
            l == root_layout(l.field_size, l.field_align)
        } else {
            let b = l.except_self.last();
            &&& l == derived_layout(self.layouts[b as int], b, l.field_size, l.field_align)
            &&& derived_layout_fits(self.layouts[b as int], l.field_size, l.field_align)
        }
    }

    /// Every registered layout is well formed.
    pub open spec fn layouts_wf(self) -> bool {
        forall|a: int| 0 <= a < self.layouts.len() ==> #[trigger] self.layout_ok(a)
    }

    /// Every entity belongs to a registered archetype and has one value slot
    /// per component of it.
    pub open spec fn entities_wf(self) -> bool {
        forall|e: (usize, usize)|
            #[trigger] self.entities.contains_key(e) ==> {
                &&& self.is_component(self.entities[e].archetype)
                &&& self.entities[e].values.len() == self.layouts[self.entities[e].archetype as int].index
                    + 1
            }
    }

    pub open spec fn wf(self) -> bool {
        &&& self.layouts_wf()
        &&& self.entities_wf()
    }
}

/// The initialization flags of a record as a sequence; `None` stands for
/// every component having a value.
spec fn flags_of(flags: Option<Vec<bool>>, width: nat) -> Seq<bool> {
    match flags {
        None => Seq::new(width, |d: int| true),
        Some(v) => v@,
    }
}

/// The flags are kept as `None` exactly when every flag is set.
spec fn flags_normal(flags: Option<Vec<bool>>, width: nat) -> bool {
    match flags {
        None => true,
        Some(v) => v@.len() == width && exists|d: int| 0 <= d < width && !#[trigger] v@[d],
    }
}

/// Sets the flag at depth `d` to `set`.
fn update_flags(flags: Option<Vec<bool>>, width: usize, d: usize, set: bool) -> (r: Option<Vec<bool>>)
    requires
        flags_normal(flags, width as nat),
        d < width,
    ensures
        flags_normal(r, width as nat),
        flags_of(r, width as nat) == flags_of(flags, width as nat).update(d as int, set),
{
    let ghost target = flags_of(flags, width as nat).update(d as int, set);
    let mut v = match flags {
        Some(v) => v,
        None => {
            let mut v: Vec<bool> = Vec::new();
            let mut i: usize = 0;
            while i < width
                invariant
                    i <= width,
                    v@ == Seq::new(i as nat, |k: int| true),
                decreases width - i,
            {
                v.push(true);
                i = i + 1;
                assert(v@ =~= Seq::new(i as nat, |k: int| true));
            }
            v
        },
    };
    v.set(d, set);
    assert(v@ =~= target);
    let mut i: usize = 0;
    while i < width
        invariant
            i <= width,
            v@.len() == width,
            v@ == target,
            target == flags_of(flags, width as nat).update(d as int, set),
            forall|k: int| 0 <= k < i ==> #[trigger] v@[k],
        decreases width - i,
    {
        if !v[i] {
            return Some(v);
        }
        i = i + 1;
    }
    assert(flags_of(None, width as nat) =~= target);
    None
}

/// An entity's record: its archetype, its row in the archetype's storage,
/// and which of its components have a value (`None` once all of them have).
struct EntityInfo {
    archetype: usize,
    index: usize,
    component_initialized: Option<Vec<bool>>,
}

/// An entity record together with the guard of the entity that owns it.
struct EntityRecord {
    guard: usize,
    info: EntityInfo,
}

/// A registered component: its archetype's layout and the archetype's rows.
struct ComponentInfo<V> {
    layout: ArchetypeLayout,
    storage: Slab<Vec<Option<V>>>,
    capacity: usize,
}

/// The world: registered components with the rows of their archetypes, and
/// the entities.
#[verifier::reject_recursive_types(E)]
pub struct World<E: ?Sized + 'static, V> {
    components: Vec<ComponentInfo<V>>,
    entities: Slab<EntityRecord>,
    next_guard: usize,
    phantom: PhantomData<&'static E>,
}

impl<V> ComponentInfo<V> {
    /// Vacates row `r`, dropping its values; the row is the next one reused.
    fn vacate(&mut self, r: usize)
        requires
            old(self).wf(),
            old(self).storage@.contains_key(r),
        ensures
            final(self).wf(),
            final(self).layout == old(self).layout,
            final(self).storage@ == old(self).storage@.remove(r),
            final(self).storage_view() == old(self).storage_view().vacated(r),
    {
        let _ = self.storage.remove(r);
    }

    /// Replaces the value at depth `d` of row `r` with `v`, returning the
    /// value it held.
    fn swap_cell(&mut self, r: usize, d: usize, v: Option<V>) -> (old_v: Option<V>)
        requires
            old(self).wf(),
            old(self).storage@.contains_key(r),
            d <= old(self).layout@.index,
        ensures
            final(self).wf(),
            final(self).layout == old(self).layout,
            old_v == old(self).storage@[r]@[d as int],
            final(self).storage@.dom() == old(self).storage@.dom(),
            final(self).storage@[r]@ == old(self).storage@[r]@.update(d as int, v),
            forall|q: usize| q != r ==> #[trigger] final(self).storage@[q] == old(self).storage@[q],
            final(self).storage_view() == old(self).storage_view(),
    {
        let cells = self.storage.get_mut(r);
        let mut v = v;
        std::mem::swap(&mut cells[d], &mut v);
        v
    }

    /// The value at depth `d` of row `r`.
    fn cell(&self, r: usize, d: usize) -> (v: &Option<V>)
        requires
            self.wf(),
            self.storage@.contains_key(r),
            d <= self.layout@.index,
        ensures
            *v == self.storage@[r]@[d as int],
    {
        let cells = self.storage.get(r);
        &cells[d]
    }

    /// The value at depth `d` of row `r`, to be changed in place.
    fn cell_mut(&mut self, r: usize, d: usize) -> (v: &mut Option<V>)
        requires
            old(self).wf(),
            old(self).storage@.contains_key(r),
            d <= old(self).layout@.index,
        ensures
            *v == old(self).storage@[r]@[d as int],
            final(self).wf(),
            final(self).layout == old(self).layout,
            final(self).storage@.dom() == old(self).storage@.dom(),
            final(self).storage@[r]@ == old(self).storage@[r]@.update(d as int, *final(v)),
            forall|q: usize| q != r ==> #[trigger] final(self).storage@[q] == old(self).storage@[q],
            final(self).storage_view() == old(self).storage_view(),
    {
        let cells = self.storage.get_mut(r);
        &mut cells[d]
    }

    spec fn storage_view(&self) -> StorageView {
        StorageView {
            len: self.storage.spec_len(),
            capacity: self.capacity as nat,
            free: self.storage.free_list(),
        }
    }

    spec fn wf(&self) -> bool {
        &&& self.storage.wf()
        &&& layout_wf(self.layout@)
        &&& self.storage.spec_len() <= self.capacity
        &&& forall|r: usize|
            #[trigger] self.storage@.contains_key(r) ==> self.storage@[r]@.len() == self.layout@.index + 1
    }

    /// Places `row` in the storage, growing the storage when it is full.
    fn place(&mut self, row: Vec<Option<V>>) -> (r: usize)
        requires
            old(self).wf(),
            row@.len() == old(self).layout@.index + 1,
            old(self).storage_view().can_place(old(self).layout@.size, old(self).layout@.align),
        ensures
            final(self).wf(),
            final(self).layout == old(self).layout,
            r == old(self).storage_view().next_row(),
            !old(self).storage@.contains_key(r),
            final(self).storage@ == old(self).storage@.insert(r, row),
            final(self).storage_view() == old(self).storage_view().placed(),
    {
        proof {
            self.storage.lemma_wf_facts();
        }
        if !self.storage.has_vacancy() && self.storage.len() == self.capacity {
            let new_capacity = if self.capacity == 0 {
                1
            } else if self.capacity > usize::MAX / 2 {
                usize::MAX
            } else {
                self.capacity * 2
            };
            self.capacity = new_capacity;
        }
        self.storage.insert(row)
    }
}

impl<E: ?Sized, V> World<E, V> {
    spec fn entity_view(&self, i: usize) -> EntityView<V> {
        let info = self.entities@[i].info;
        EntityView {
            archetype: info.archetype,
            values: self.components[info.archetype as int].storage@[info.index]@,
        }
    }

    /// The registered components and the live entities.
    pub closed spec fn view(&self) -> WorldView<V> {
        WorldView {
            layouts: Seq::new(self.components.len() as nat, |a: int| self.components[a].layout@),
            entities: Map::new(
                |k: (usize, usize)| self.entities@.contains_key(k.0) && self.entities@[k.0].guard == k.1,
                |k: (usize, usize)| self.entity_view(k.0),
            ),
        }
    }

    /// The row storage of the archetype of component `a`.
    pub closed spec fn storage(&self, a: usize) -> StorageView {
        if a < self.components.len() {
            self.components[a as int].storage_view()
        } else {
            StorageView { len: 0, capacity: 0, free: Seq::empty() }
        }
    }

    /// The record slot that the next created entity takes.
    pub closed spec fn next_entity_slot(&self) -> usize {
        self.entities.next_slot()
    }

    /// The row that entity `e` owns in its archetype's storage.
    pub closed spec fn row(&self, e: (usize, usize)) -> usize {
        if self.entities@.contains_key(e.0) {
            self.entities@[e.0].info.index
        } else {
            0
        }
    }

    /// The guard that the next created entity gets.
    pub closed spec fn next_guard(&self) -> usize {
        self.next_guard
    }

    /// Whether the row storages, the rows of the entities, the next entity
    /// slot and the next guard of `self` are those of `other`.
    pub open spec fn storage_kept(&self, other: &Self) -> bool {
        &&& forall|a: usize| #[trigger] self.storage(a) == other.storage(a)
        &&& forall|e: (usize, usize)| #[trigger] self.row(e) == other.row(e)
        &&& self.next_entity_slot() == other.next_entity_slot()
        &&& self.next_guard() == other.next_guard()
    }

    spec fn record_wf(&self, i: usize) -> bool {
        let info = self.entities@[i].info;
        let a = info.archetype;
        &&& a < self.components.len()
        &&& self.components[a as int].storage@.contains_key(info.index)
        &&& {
            let cells = self.components[a as int].storage@[info.index]@;
            &&& flags_normal(info.component_initialized, cells.len())
            &&& forall|d: int|
                0 <= d < cells.len() ==> #[trigger] flags_of(info.component_initialized, cells.len())[d]
                    == cells[d] is Some
        }
    }

    /// Well-formedness of the world.
    pub closed spec fn wf(&self) -> bool {
        &&& self.next_guard >= 1
        &&& self@.layouts_wf()
        &&& forall|a: int| 0 <= a < self.components.len() ==> #[trigger] self.components[a].wf()
        &&& self.entities.wf()
        &&& forall|i: usize| #[trigger] self.entities@.contains_key(i) ==> self.record_wf(i)
        &&& forall|i: usize, j: usize|
            #[trigger] self.entities@.contains_key(i) && #[trigger] self.entities@.contains_key(j) && i
                != j && self.entities@[i].info.archetype == self.entities@[j].info.archetype
                ==> self.entities@[i].info.index != self.entities@[j].info.index
    }

    /// A world whose only change is the value at depth `d` of one entity's
    /// row, with the entity's flags updated to match, is well formed and
    /// has the view of [`WorldView::set_value`].
    proof fn lemma_update_cell(&self, new: Self, e: (usize, usize), c: usize, v: Option<V>)
        requires
            self.wf(),
            self@.contains(e),
            self@.is_component(c),
            self@.member(c, self@.archetype(e)),
            new.components.len() == self.components.len(),
            new.next_guard == self.next_guard,
            new.entities.wf(),
            new.entities@.dom() == self.entities@.dom(),
            new.entities.free_list() == self.entities.free_list(),
            new.entities.spec_len() == self.entities.spec_len(),
            forall|i: usize| i != e.0 ==> #[trigger] new.entities@[i] == self.entities@[i],
            new.entities@[e.0].guard == self.entities@[e.0].guard,
            new.entities@[e.0].info.archetype == self.entities@[e.0].info.archetype,
            new.entities@[e.0].info.index == self.entities@[e.0].info.index,
            ({
                let a = self.entities@[e.0].info.archetype;
                let r = self.entities@[e.0].info.index;
                let d = self@.layouts[c as int].index;
                let width = (self@.layouts[a as int].index + 1) as nat;
                &&& flags_normal(new.entities@[e.0].info.component_initialized, width)
                &&& flags_of(new.entities@[e.0].info.component_initialized, width) == flags_of(
                    self.entities@[e.0].info.component_initialized,
                    width,
                ).update(d, v is Some)
                &&& forall|b: int| 0 <= b < self.components.len() && b != a ==> #[trigger] new.components[b] == self.components[b]
                &&& new.components[a as int].wf()
                &&& new.components[a as int].layout == self.components[a as int].layout
                &&& new.components[a as int].storage_view() == self.components[a as int].storage_view()
                &&& new.components[a as int].storage@.dom() == self.components[a as int].storage@.dom()
                &&& new.components[a as int].storage@[r]@ == self.components[a as int].storage@[r]@.update(d, v)
                &&& forall|q: usize| q != r ==> #[trigger] new.components[a as int].storage@[q] == self.components[a as int].storage@[q]
            }),
        ensures
            new.wf(),
            new@ == self@.set_value(e, c, v),
            new.storage_kept(self),
    {
        let a = self.entities@[e.0].info.archetype;
        let r = self.entities@[e.0].info.index;
        let d = self@.layouts[c as int].index;
        let ow = self@;
        let nw = new@;
        assert(self.record_wf(e.0));
        assert(self.components[a as int].wf());
        assert(ow.layout_ok(a as int));
        assert(ow.layout_ok(c as int));
        assert(0 <= d <= ow.layouts[a as int].index);
        assert(nw.layouts =~= ow.layouts) by {
            assert forall|b: int| 0 <= b < nw.layouts.len() implies nw.layouts[b] == ow.layouts[b] by {
                if b != a {
                    assert(new.components[b] == self.components[b]);
                }
            }
        }
        assert forall|b: int| 0 <= b < nw.layouts.len() implies #[trigger] nw.layout_ok(b) by {
            assert(ow.layout_ok(b));
        }
        assert forall|b: int| 0 <= b < new.components.len() implies #[trigger] new.components[b].wf() by {
            if b != a {
                assert(self.components[b].wf());
                assert(new.components[b] == self.components[b]);
            }
        }
        assert forall|j: usize| #[trigger] new.entities@.contains_key(j) implies new.record_wf(j) by {
            assert(self.record_wf(j));
            if j != e.0 {
                let info = self.entities@[j].info;
                if info.archetype == a {
                    assert(info.index != r);
                    assert(new.components[a as int].storage@[info.index] == self.components[a as int].storage@[info.index]);
                } else {
                    assert(new.components[info.archetype as int] == self.components[info.archetype as int]);
                }
            } else {
                let cells = new.components[a as int].storage@[r]@;
                let ocells = self.components[a as int].storage@[r]@;
                let info = new.entities@[j].info;
                assert(ocells.len() == self@.layouts[a as int].index + 1);
                assert(cells == ocells.update(d, v));
                assert(0 <= d < ocells.len());
                assert(cells.len() == ocells.len());
                assert forall|k: int| 0 <= k < cells.len() implies #[trigger] flags_of(info.component_initialized, cells.len())[k]
                    == cells[k] is Some by {
                    assert(flags_of(self.entities@[j].info.component_initialized, ocells.len())[k] == ocells[k] is Some);
                    if k != d {
                        assert(cells[k] == ocells[k]);
                    }
                }
            }
        }
        assert forall|i: usize, j: usize|
            #[trigger] new.entities@.contains_key(i) && #[trigger] new.entities@.contains_key(j) && i != j
                && new.entities@[i].info.archetype == new.entities@[j].info.archetype implies new.entities@[i].info.index
            != new.entities@[j].info.index by {
            assert(self.entities@.contains_key(i) && self.entities@.contains_key(j));
        }
        let expected = ow.set_value(e, c, v);
        assert forall|k: (usize, usize)| #[trigger] nw.entities.contains_key(k) <==> expected.entities.contains_key(k) by {}
        assert forall|k: (usize, usize)| #[trigger] nw.entities.contains_key(k) implies nw.entities[k] == expected.entities[k] by {
            assert(self.record_wf(k.0));
            if k.0 != e.0 {
                let info = self.entities@[k.0].info;
                if info.archetype == a {
                    assert(info.index != r);
                    assert(new.components[a as int].storage@[info.index] == self.components[a as int].storage@[info.index]);
                } else {
                    assert(new.components[info.archetype as int] == self.components[info.archetype as int]);
                }
            } else {
                assert(k == e);
            }
        }
        assert(nw.entities =~= expected.entities);
        assert forall|b: usize| #[trigger] new.storage(b) == self.storage(b) by {
            if b < self.components.len() && b != a {
                assert(new.components[b as int] == self.components[b as int]);
            }
        }
        assert forall|f: (usize, usize)| #[trigger] new.row(f) == self.row(f) by {
            if f.0 != e.0 && self.entities@.contains_key(f.0) {
                assert(new.entities@[f.0] == self.entities@[f.0]);
            }
        }
    }

    /// Whether `new` differs from `self` only in the value at the depth of
    /// `c` in the row of entity `e`, with the entity's flags unchanged.
    spec fn cell_changed(&self, new: Self, e: (usize, usize), c: usize) -> bool {
        let a = self.entities@[e.0].info.archetype;
        let r = self.entities@[e.0].info.index;
        let d = self@.layouts[c as int].index;
        &&& new.components.len() == self.components.len()
        &&& new.next_guard == self.next_guard
        &&& new.entities == self.entities
        &&& forall|b: int| 0 <= b < self.components.len() && b != a ==> #[trigger] new.components[b] == self.components[b]
        &&& new.components[a as int].wf()
        &&& new.components[a as int].layout == self.components[a as int].layout
        &&& new.components[a as int].storage_view() == self.components[a as int].storage_view()
        &&& new.components[a as int].storage@.dom() == self.components[a as int].storage@.dom()
        &&& new.components[a as int].storage@[r]@ == self.components[a as int].storage@[r]@.update(
            d,
            new.components[a as int].storage@[r]@[d],
        )
        &&& new.components[a as int].storage@[r]@[d] is Some
        &&& forall|q: usize| q != r ==> #[trigger] new.components[a as int].storage@[q] == self.components[a as int].storage@[q]
    }

    /// Changing the value of a component that every value of the entity's
    /// archetype already has keeps the world well formed.
    proof fn lemma_update_cell_any(&self, e: (usize, usize), c: usize)
        requires
            self.wf(),
            self@.contains(e),
            self@.is_component(c),
            self@.member(c, self@.archetype(e)),
            self@.value(e, c) is Some,
        ensures
            forall|new: Self|
                #![trigger new.wf()]
                #![trigger new.view()]
                self.cell_changed(new, e, c) ==> {
                    &&& new.wf()
                    &&& new@ == self@.set_value(
                        e,
                        c,
                        new.components[self@.archetype(e) as int].storage@[self.row(e)]@[self@.layouts[c as int].index],
                    )
                    &&& new.storage_kept(self)
                },
    {
        assert forall|new: Self|
            #![trigger new.wf()]
            #![trigger new.view()]
            self.cell_changed(new, e, c) implies {
                &&& new.wf()
                &&& new@ == self@.set_value(
                    e,
                    c,
                    new.components[self@.archetype(e) as int].storage@[self.row(e)]@[self@.layouts[c as int].index],
                )
                &&& new.storage_kept(self)
            } by {
            let a = self.entities@[e.0].info.archetype;
            let r = self.entities@[e.0].info.index;
            let d = self@.layouts[c as int].index;
            let v = new.components[a as int].storage@[r]@[d];
            assert(self.record_wf(e.0));
            assert(self.components[a as int].wf());
            assert(self@.layout_ok(a as int));
            assert(self@.layout_ok(c as int));
            assert(0 <= d <= self@.layouts[a as int].index);
            let cells = self.components[a as int].storage@[r]@;
            assert(self@.entities[e] == self.entity_view(e.0));
            assert(self.entity_view(e.0).values == cells);
            assert(cells[d] is Some);
            let width = (self@.layouts[a as int].index + 1) as nat;
            let flags = self.entities@[e.0].info.component_initialized;
            assert(flags_of(flags, width)[d] == cells[d] is Some);
            assert(flags_of(flags, width) =~= flags_of(flags, width).update(d, true));
            self.lemma_update_cell(new, e, c, v);
        }
    }

    /// A well-formed world has a well-formed view.
    pub proof fn lemma_view_wf(&self)
        requires
            self.wf(),
        ensures
            self@.wf(),
    {
        assert forall|e: (usize, usize)| #[trigger] self@.entities.contains_key(e) implies {
            &&& self@.is_component(self@.entities[e].archetype)
            &&& self@.entities[e].values.len() == self@.layouts[self@.entities[e].archetype as int].index
                + 1
        } by {
            assert(self.record_wf(e.0));
            let a = self.entities@[e.0].info.archetype;
            assert(self.components[a as int].wf());
        }
    }

    /// Creates an empty world.
    pub fn new() -> (w: Self)
        ensures
            w.wf(),
            w@.layouts == Seq::<LayoutView>::empty(),
            w@.entities == Map::<(usize, usize), EntityView<V>>::empty(),
            w.next_guard() == 1,
    {
        let w = World {
            components: Vec::new(),
            entities: Slab::new(),
            next_guard: 1,
            phantom: PhantomData,
        };
        assert(w@.layouts =~= Seq::<LayoutView>::empty());
        assert(w@.entities =~= Map::<(usize, usize), EntityView<V>>::empty());
        w
    }
}

impl<E: ?Sized> Component<E> {
    /// The layout of the component's own archetype: where the component's
    /// value lies in a row, the size of a row, and the row alignment.
    pub fn layout<V>(self, world: &World<E, V>) -> (r: (usize, usize, usize))
        requires
            world.wf(),
            world@.is_component(self@),
        ensures
            r.0 == world@.layouts[self@ as int].offset,
            r.1 == world@.layouts[self@ as int].size,
            r.2 == world@.layouts[self@ as int].align,
    {
        let l = &world.components[self.0].layout;
        (l.offset(), l.size(), l.align())
    }

    /// Registers a new component and its archetype.
    ///
    /// The archetype holds the new component and all components of the
    /// `base` archetype. Values of the component have the size and the
    /// alignment of `T`, which decide where they lie in an archetype row.
    pub fn new<T: 'static, V>(base: Option<Component<E>>, world: &mut World<E, V>) -> (c: Self)
        requires
            old(world).wf(),
            base matches Some(b) ==> {
                &&& old(world)@.is_component(b@)
                &&& derived_layout_fits(
                    old(world)@.layouts[b@ as int],
                    size_of::<T>() as int,
                    align_of::<T>() as int,
                )
            },
        ensures
            final(world).wf(),
            c@ == old(world)@.layouts.len(),
            final(world)@ == old(world)@.with_component(
                match base {
                    Some(b) => derived_layout(
                        old(world)@.layouts[b@ as int],
                        b@,
                        size_of::<T>() as int,
                        align_of::<T>() as int,
                    ),
                    None => root_layout(size_of::<T>() as int, align_of::<T>() as int),
                },
            ),
            final(world).storage(c@) == (StorageView { len: 0, capacity: 0, free: Seq::empty() }),
            forall|a: usize| #![auto] a < c@ ==> final(world).storage(a) == old(world).storage(a),
            final(world).next_entity_slot() == old(world).next_entity_slot(),
            final(world).next_guard() == old(world).next_guard(),
            forall|c1: usize, c2: usize|
                final(world)@.is_component(c1) && final(world)@.is_component(c2) && final(world)@.member(c1, c@)
                    && final(world)@.member(c2, c@) ==> #[trigger] final(world)@.layout_sound(c@, c1, c2),
    {
        let ghost old_world = *world;
        proof {
            if let Some(b) = base {
                assert(world.components[b.0 as int].wf());
            }
        }
        let layout = match base {
            Some(b) => derived_layout_of::<T>(&world.components[b.0].layout, b.0),
            None => root_layout_of::<T>(),
        };
        let info = ComponentInfo { layout, storage: Slab::new(), capacity: 0 };
        let id = world.components.len();
        world.components.push(info);
        proof {
            let ow = old_world@;
            let l = layout@;
            assert(world@.layouts =~= ow.layouts.push(l));
            assert(world@.entities =~= ow.entities) by {
                assert forall|k: (usize, usize)| #[trigger] world@.entities.contains_key(k) implies
                    world@.entities[k] == ow.entities[k] by {
                    assert(old_world.record_wf(k.0));
                    assert(world.components[old_world.entities@[k.0].info.archetype as int]
                        == old_world.components[old_world.entities@[k.0].info.archetype as int]);
                }
            }
            assert forall|a: int| 0 <= a < world.components.len() implies #[trigger] world@.layout_ok(a) by {
                if a < id {
                    assert(ow.layout_ok(a));
                    let la = ow.layouts[a];
                    assert forall|i: int| 0 <= i < la.index implies {
                        &&& #[trigger] la.except_self[i] < a
                        &&& world@.layouts[la.except_self[i] as int].index == i
                        &&& world@.layouts[la.except_self[i] as int].except_self == la.except_self.take(i)
                    } by {
                        assert(la.except_self[i] < a);
                    }
                    if la.index != 0 {
                        assert(la.except_self.last() == la.except_self[la.index - 1]);
                    }
                } else {
                    assert(a == id);
                    match base {
                        Some(b) => {
                            let bl = ow.layouts[b.0 as int];
                            assert(ow.layout_ok(b.0 as int));
                            assert(l.except_self.last() == b.0);
                            assert forall|i: int| 0 <= i < l.index implies {
                                &&& #[trigger] l.except_self[i] < a
                                &&& world@.layouts[l.except_self[i] as int].index == i
                                &&& world@.layouts[l.except_self[i] as int].except_self == l.except_self.take(i)
                            } by {
                                if i < bl.index {
                                    assert(l.except_self[i] == bl.except_self[i]);
                                    assert(bl.except_self[i] < b.0);
                                    assert(bl.except_self.take(i) =~= l.except_self.take(i));
                                } else {
                                    assert(l.except_self[i] == b.0);
                                    assert(bl.except_self =~= l.except_self.take(i));
                                }
                            }
                        },
                        None => {},
                    }
                }
            }
            assert forall|a: int| 0 <= a < world.components.len() implies #[trigger] world.components[a].wf() by {
                if a < id {
                    assert(old_world.components[a].wf());
                }
            }
            assert forall|i: usize| #[trigger] world.entities@.contains_key(i) implies world.record_wf(i) by {
                assert(old_world.record_wf(i));
            }
            assert forall|c1: usize, c2: usize|
                world@.is_component(c1) && world@.is_component(c2) && world@.member(c1, id) && world@.member(c2, id)
                    implies #[trigger] world@.layout_sound(id, c1, c2) by {
                world@.lemma_layout_sound(id, c1, c2);
            }
        }
        Component(id, PhantomData)
    }
}

impl<E: ?Sized> Entity<E> {
    /// Creates an entity of the archetype of `archetype`.
    ///
    /// Before the entity is read with [`get`](Entity::get) or
    /// [`get_mut`](Entity::get_mut), every component of the archetype must be
    /// given a value with [`add`](Entity::add). An entity cannot hold a
    /// component that does not belong to its archetype.
    pub fn new<V>(archetype: Component<E>, world: &mut World<E, V>) -> (e: Self)
        requires
            old(world).wf(),
            old(world)@.is_component(archetype@),
            old(world).storage(archetype@).can_place(
                old(world)@.layouts[archetype@ as int].size,
                old(world)@.layouts[archetype@ as int].align,
            ),
        ensures
            final(world).wf(),
            !old(world)@.contains(e@),
            e@.0 == old(world).next_entity_slot(),
            final(world)@ == old(world)@.with_entity(e@, archetype@),
            final(world).row(e@) == old(world).storage(archetype@).next_row(),
            final(world).storage(archetype@) == old(world).storage(archetype@).placed(),
            forall|a: usize| a != archetype@ ==> #[trigger] final(world).storage(a) == old(world).storage(a),
            forall|f: (usize, usize)| old(world)@.contains(f) ==> #[trigger] final(world).row(f) == old(world).row(f),
            e@.1 == old(world).next_guard(),
            e@.1 >= 1,
            final(world).next_guard() == advance_guard(old(world).next_guard()),
    {
        let ghost old_world = *world;
        let a = archetype.0;
        proof {
            assert(world.components[a as int].wf());
            world.entities.lemma_wf_facts();
        }
        let width = world.components[a].layout.width();
        let mut row: Vec<Option<V>> = Vec::new();
        let mut flags: Vec<bool> = Vec::new();
        let mut i: usize = 0;
        while i < width
            invariant
                i <= width,
                row@ == Seq::new(i as nat, |d: int| None::<V>),
                flags@ == Seq::new(i as nat, |d: int| false),
            decreases width - i,
        {
            row.push(None);
            flags.push(false);
            i = i + 1;
            assert(row@ =~= Seq::new(i as nat, |d: int| None::<V>));
            assert(flags@ =~= Seq::new(i as nat, |d: int| false));
        }
        let index = world.components[a].place(row);
        let guard = world.next_guard;
        world.next_guard = if guard == usize::MAX {
            1
        } else {
            guard + 1
        };
        let ghost row_view = row@;
        let slot = world.entities.insert(
            EntityRecord {
                guard,
                info: EntityInfo { archetype: a, index, component_initialized: Some(flags) },
            },
        );
        let e = Entity { index: slot, guard, phantom: PhantomData };
        proof {
            let ow = old_world@;
            let nw = world@;
            assert forall|b: int| 0 <= b < world.components.len() implies #[trigger] world.components[b].wf() by {
                if b != a {
                    assert(old_world.components[b].wf());
                }
            }
            assert(nw.layouts =~= ow.layouts);
            assert forall|b: int| 0 <= b < nw.layouts.len() implies #[trigger] nw.layout_ok(b) by {
                assert(ow.layout_ok(b));
            }
            assert forall|j: usize| #[trigger] world.entities@.contains_key(j) implies world.record_wf(j) by {
                if j != slot {
                    assert(old_world.record_wf(j));
                    let info = old_world.entities@[j].info;
                    if info.archetype == a {
                        assert(info.index != index);
                    }
                } else {
                    let cells = world.components[a as int].storage@[index]@;
                    assert(cells == row_view);
                    assert(flags_of(Some(flags), cells.len())[0] == false);
                }
            }
            assert forall|j: usize, k: usize|
                #[trigger] world.entities@.contains_key(j) && #[trigger] world.entities@.contains_key(k) && j
                    != k && world.entities@[j].info.archetype == world.entities@[k].info.archetype implies
                world.entities@[j].info.index != world.entities@[k].info.index by {
                if j != slot && k != slot {
                } else if j == slot {
                    assert(old_world.record_wf(k));
                } else {
                    assert(old_world.record_wf(j));
                }
            }
            assert(!ow.entities.contains_key(e@));
            let expected = ow.with_entity(e@, a);
            assert forall|k: (usize, usize)| #[trigger] nw.entities.contains_key(k) <==> expected.entities.contains_key(k) by {}
            assert forall|k: (usize, usize)| #[trigger] nw.entities.contains_key(k) implies nw.entities[k]
                == expected.entities[k] by {
                if k.0 != slot {
                    assert(old_world.record_wf(k.0));
                    let info = old_world.entities@[k.0].info;
                    if info.archetype == a {
                        assert(info.index != index);
                    }
                    assert(world.components[info.archetype as int].storage@[info.index]
                        == old_world.components[info.archetype as int].storage@[info.index]);
                } else {
                    assert(row_view =~= Seq::new((ow.layouts[a as int].index + 1) as nat, |d: int| None::<V>));
                }
            }
            assert(nw.entities =~= expected.entities);
        }
        e
    }


    /// The record of the entity and the depth of `component` in its chain,
    /// with the facts that a caller needs of them.
    fn locate<V>(self, component: Component<E>, world: &World<E, V>) -> (r: (usize, usize, usize))
        requires
            world.wf(),
            world@.contains(self@),
            world@.is_component(component@),
        ensures
            r.0 == world@.archetype(self@),
            r.1 == world.row(self@),
            r.2 == world@.layouts[component@ as int].index,
            world@.member(component@, r.0) ==> r.2 < world@.entities[self@].values.len(),
            world.components[r.0 as int].wf(),
            world.record_wf(self.index),
            world.components[r.0 as int].storage@.contains_key(r.1),
            world.components[r.0 as int].storage@[r.1]@ == world@.entities[self@].values,
            world.components[r.0 as int].layout@ == world@.layouts[r.0 as int],
            world@.entities[self@].values.len() == world@.layouts[r.0 as int].index + 1,
    {
        proof {
            assert(world.record_wf(self.index));
            assert(world.components[component.0 as int].wf());
            assert(world.components[world.entities@[self.index].info.archetype as int].wf());
        }
        let record = world.entities.get(self.index);
        let a = record.info.archetype;
        let d = world.components[component.0].layout.index();
        (a, record.info.index, d)
    }

    /// Whether `component` belongs to the archetype of `archetype`, where `d`
    /// is the depth of `component`.
    fn belongs<V>(component: Component<E>, archetype: usize, d: usize, world: &World<E, V>) -> (b: bool)
        requires
            world.wf(),
            world@.is_component(component@),
            world@.is_component(archetype),
            d == world@.layouts[component@ as int].index,
        ensures
            b == world@.member(component@, archetype),
    {
        proof {
            assert(world.components[archetype as int].wf());
        }
        component.0 == archetype || world.components[archetype].layout.base_at(d, component.0)
    }

    /// Adds the value of `component` to the entity.
    ///
    /// The component must belong to the entity's archetype and must not have
    /// a value yet.
    pub fn add<V>(self, component: Component<E>, world: &mut World<E, V>, value: V)
        requires
            old(world).wf(),
            old(world)@.contains(self@),
            old(world)@.is_component(component@),
            old(world)@.member(component@, old(world)@.archetype(self@)),
            old(world)@.value(self@, component@) is None,
        ensures
            final(world).wf(),
            final(world)@ == old(world)@.set_value(self@, component@, Some(value)),
            final(world).storage_kept(old(world)),
    {
        let ghost old_world = *world;
        let (a, r, d) = self.locate(component, world);
        let width = world.components[a].layout.width();
        let record = world.entities.get_mut(self.index);
        let flags = record.info.component_initialized.take();
        record.info.component_initialized = update_flags(flags, width, d, true);
        let _ = world.components[a].swap_cell(r, d, Some(value));
        proof {
            assert(world.entities@.dom() =~= old_world.entities@.dom());
            old_world.lemma_update_cell(*world, self@, component@, Some(value));
        }
    }

    /// Takes the value of `component` out of the entity.
    ///
    /// The component must belong to the entity's archetype and have a value.
    pub fn remove_component<V>(self, component: Component<E>, world: &mut World<E, V>) -> (v: V)
        requires
            old(world).wf(),
            old(world)@.contains(self@),
            old(world)@.is_component(component@),
            old(world)@.member(component@, old(world)@.archetype(self@)),
            old(world)@.value(self@, component@) is Some,
        ensures
            final(world).wf(),
            Some(v) == old(world)@.value(self@, component@),
            final(world)@ == old(world)@.set_value(self@, component@, None),
            final(world).storage_kept(old(world)),
    {
        let ghost old_world = *world;
        let (a, r, d) = self.locate(component, world);
        let width = world.components[a].layout.width();
        let record = world.entities.get_mut(self.index);
        let flags = record.info.component_initialized.take();
        record.info.component_initialized = update_flags(flags, width, d, false);
        let old_value = world.components[a].swap_cell(r, d, None);
        proof {
            assert(world.entities@.dom() =~= old_world.entities@.dom());
            old_world.lemma_update_cell(*world, self@, component@, None);
        }
        match old_value {
            Some(v) => v,
            None => vstd::pervasive::unreached(),
        }
    }

    /// The value of `component` of the entity; `None` when the component
    /// does not belong to the entity's archetype.
    ///
    /// Every component of the entity's archetype must have a value.
    pub fn get<V>(self, component: Component<E>, world: &World<E, V>) -> (r: Option<&V>)
        requires
            world.wf(),
            world@.contains(self@),
            world@.is_component(component@),
            world@.complete(self@),
        ensures
            r is Some <==> world@.member(component@, world@.archetype(self@)),
            r matches Some(v) ==> world@.value(self@, component@) == Some(*v),
    {
        let (a, r, d) = self.locate(component, world);
        if !Self::belongs(component, a, d, world) {
            return None;
        }
        match world.components[a].cell(r, d) {
            Some(v) => Some(v),
            None => vstd::pervasive::unreached(),
        }
    }

    /// The value of `component` of the entity, to be changed in place.
    ///
    /// Every component of the entity's archetype must have a value, and
    /// `component` must belong to the archetype.
    pub fn get_mut<V>(self, component: Component<E>, world: &mut World<E, V>) -> (r: Option<&mut V>)
        requires
            old(world).wf(),
            old(world)@.contains(self@),
            old(world)@.is_component(component@),
            old(world)@.complete(self@),
            old(world)@.member(component@, old(world)@.archetype(self@)),
        ensures
            r is Some,
            old(world)@.value(self@, component@) == Some(*r.unwrap()),
            final(world).wf(),
            final(world)@ == old(world)@.set_value(self@, component@, Some(*final(r.unwrap()))),
            final(world).storage_kept(old(world)),
    {
        let ghost old_world = *world;
        let (a, r, d) = self.locate(component, world);
        proof {
            assert(old_world@.entities[self@].values[d as int] is Some);
            old_world.lemma_update_cell_any(self@, component@);
        }
        let cell = world.components[a].cell_mut(r, d);
        match cell {
            Some(v) => Some(v),
            None => vstd::pervasive::unreached(),
        }
    }

    /// The value of `component` of the entity, which must belong to the
    /// entity's archetype and have a value; the other components of the
    /// archetype need not have one.
    pub fn component<V>(self, component: Component<E>, world: &World<E, V>) -> (r: Option<&V>)
        requires
            world.wf(),
            world@.contains(self@),
            world@.is_component(component@),
            world@.member(component@, world@.archetype(self@)),
            world@.value(self@, component@) is Some,
        ensures
            r is Some,
            world@.value(self@, component@) == Some(*r.unwrap()),
    {
        let (a, r, d) = self.locate(component, world);
        match world.components[a].cell(r, d) {
            Some(v) => Some(v),
            None => vstd::pervasive::unreached(),
        }
    }

    /// The value of `component` of the entity, to be changed in place; the
    /// component must belong to the entity's archetype and have a value.
    pub fn component_mut<V>(self, component: Component<E>, world: &mut World<E, V>) -> (r: Option<&mut V>)
        requires
            old(world).wf(),
            old(world)@.contains(self@),
            old(world)@.is_component(component@),
            old(world)@.member(component@, old(world)@.archetype(self@)),
            old(world)@.value(self@, component@) is Some,
        ensures
            r is Some,
            old(world)@.value(self@, component@) == Some(*r.unwrap()),
            final(world).wf(),
            final(world)@ == old(world)@.set_value(self@, component@, Some(*final(r.unwrap()))),
            final(world).storage_kept(old(world)),
    {
        let ghost old_world = *world;
        let (a, r, d) = self.locate(component, world);
        proof {
            old_world.lemma_update_cell_any(self@, component@);
        }
        let cell = world.components[a].cell_mut(r, d);
        match cell {
            Some(v) => Some(v),
            None => vstd::pervasive::unreached(),
        }
    }

    /// Drops the entity and the values of its components; its row is the
    /// next one of its archetype to be reused.
    pub fn drop_entity<V>(self, world: &mut World<E, V>)
        requires
            old(world).wf(),
            old(world)@.contains(self@),
        ensures
            final(world).wf(),
            final(world)@ == old(world)@.without_entity(self@),
            final(world).next_entity_slot() == self@.0,
            final(world).storage(old(world)@.archetype(self@)) == old(world).storage(
                old(world)@.archetype(self@),
            ).vacated(old(world).row(self@)),
            forall|a: usize|
                a != old(world)@.archetype(self@) ==> #[trigger] final(world).storage(a) == old(world).storage(a),
            forall|f: (usize, usize)| #[trigger] final(world)@.contains(f) ==> final(world).row(f) == old(world).row(f),
            final(world).next_guard() == old(world).next_guard(),
    {
        let ghost old_world = *world;
        proof {
            assert(world.record_wf(self.index));
        }
        let record = world.entities.remove(self.index);
        let a = record.info.archetype;
        let r = record.info.index;
        proof {
            assert(world.components[a as int].wf());
        }
        world.components[a].vacate(r);
        proof {
            let ow = old_world@;
            let nw = world@;
            assert forall|b: int| 0 <= b < world.components.len() implies #[trigger] world.components[b].wf() by {
                if b != a {
                    assert(old_world.components[b].wf());
                }
            }
            assert(nw.layouts =~= ow.layouts);
            assert forall|b: int| 0 <= b < nw.layouts.len() implies #[trigger] nw.layout_ok(b) by {
                assert(ow.layout_ok(b));
            }
            assert forall|j: usize| #[trigger] world.entities@.contains_key(j) implies world.record_wf(j) by {
                assert(old_world.record_wf(j));
                let info = old_world.entities@[j].info;
                if info.archetype == a {
                    assert(old_world.entities@.contains_key(self.index));
                    assert(info.index != r);
                }
            }
            let expected = ow.without_entity(self@);
            assert forall|k: (usize, usize)| #[trigger] nw.entities.contains_key(k) <==> expected.entities.contains_key(k) by {}
            assert forall|k: (usize, usize)| #[trigger] nw.entities.contains_key(k) implies nw.entities[k]
                == expected.entities[k] by {
                assert(old_world.record_wf(k.0));
                let info = old_world.entities@[k.0].info;
                if info.archetype == a {
                    assert(old_world.entities@.contains_key(self.index));
                    assert(info.index != r);
                }
                assert(world.components[info.archetype as int].storage@[info.index]
                    == old_world.components[info.archetype as int].storage@[info.index]);
            }
            assert(nw.entities =~= expected.entities);
        }
    }
}


impl StorageView {
    /// The row vacated last is the next one placed, and placing it gives the
    /// storage back as it was before the row was vacated.
    pub proof fn lemma_vacated_then_placed(self, r: usize)
        ensures
            self.vacated(r).next_row() == r,
            self.vacated(r).placed() == self,
    {
        assert(self.vacated(r).free.drop_first() =~= self.free);
    }
}

impl<V> WorldView<V> {
    /// A component belongs to an archetype at a depth no deeper than the
    /// archetype's own component.
    pub proof fn lemma_member_depth(self, a: usize, c: usize)
        requires
            self.layouts_wf(),
            self.is_component(a),
            self.is_component(c),
            self.member(c, a),
        ensures
            0 <= self.layouts[c as int].index <= self.layouts[a as int].index,
            self.chain(a)[self.layouts[c as int].index] == c,
    {
        assert(self.layout_ok(a as int));
        assert(self.layout_ok(c as int));
    }

    /// The archetype of a component with a base holds the component itself
    /// and exactly the components of the base's archetype besides.
    pub proof fn lemma_archetype_extends(self, a: usize, x: usize)
        requires
            self.layouts_wf(),
            self.is_component(a),
            self.is_component(x),
            self.layouts[a as int].index > 0,
        ensures
            self.member(x, a) <==> (x == a || self.member(
                x,
                self.layouts[a as int].except_self.last(),
            )),
    {
        let la = self.layouts[a as int];
        assert(self.layout_ok(a as int));
        let b = la.except_self.last();
        assert(la.except_self[la.index - 1] == b);
        assert(b < a);
        assert(self.layout_ok(b as int));
        let lb = self.layouts[b as int];
        assert(la.except_self == lb.except_self.push(b));
        assert(self.layout_ok(x as int));
        let d = self.layouts[x as int].index;
        if d < lb.index {
            assert(la.except_self[d] == lb.except_self[d]);
        }
    }

    /// Two components of one archetype at the same depth are the same
    /// component.
    pub proof fn lemma_member_depth_unique(self, a: usize, c1: usize, c2: usize)
        requires
            self.layouts_wf(),
            self.is_component(a),
            self.is_component(c1),
            self.is_component(c2),
            self.member(c1, a),
            self.member(c2, a),
            self.layouts[c1 as int].index == self.layouts[c2 as int].index,
        ensures
            c1 == c2,
    {
        self.lemma_member_depth(a, c1);
        self.lemma_member_depth(a, c2);
    }

    /// Setting the value of one component of one entity sets that value
    /// and leaves every other value, every archetype and every other
    /// entity's completeness as it was.
    pub proof fn lemma_set_value(self, e: (usize, usize), c: usize, v: Option<V>)
        requires
            self.wf(),
            self.contains(e),
            self.is_component(c),
            self.member(c, self.archetype(e)),
        ensures
            self.set_value(e, c, v).wf(),
            self.set_value(e, c, v).layouts == self.layouts,
            self.set_value(e, c, v).entities.dom() == self.entities.dom(),
            self.set_value(e, c, v).archetype(e) == self.archetype(e),
            self.set_value(e, c, v).value(e, c) == v,
            forall|f: (usize, usize)|
                f != e ==> #[trigger] self.set_value(e, c, v).entities[f] == self.entities[f],
            forall|c2: usize|
                self.is_component(c2) && c2 != c ==> #[trigger] self.set_value(e, c, v).value(e, c2)
                    == self.value(e, c2),
            v is Some ==> (self.set_value(e, c, v).complete(e) <==> forall|c2: usize|
                self.is_component(c2) && c2 != c && self.member(c2, self.archetype(e)) ==> #[trigger] self.value(
                    e,
                    c2,
                ) is Some),
    {
        let w = self.set_value(e, c, v);
        let a = self.archetype(e);
        let d = self.layouts[c as int].index;
        self.lemma_member_depth(a, c);
        assert(w.entities.dom() =~= self.entities.dom());
        assert forall|b: int| 0 <= b < w.layouts.len() implies #[trigger] w.layout_ok(b) by {
            assert(self.layout_ok(b));
        }
        assert forall|f: (usize, usize)| #[trigger] w.entities.contains_key(f) implies {
            &&& w.is_component(w.entities[f].archetype)
            &&& w.entities[f].values.len() == w.layouts[w.entities[f].archetype as int].index + 1
        } by {
            assert(self.entities.contains_key(f));
        }
        assert forall|c2: usize| self.is_component(c2) && c2 != c implies #[trigger] w.value(e, c2)
            == self.value(e, c2) by {
            if self.member(c2, a) {
                self.lemma_member_depth(a, c2);
                if self.layouts[c2 as int].index == d {
                    self.lemma_member_depth_unique(a, c, c2);
                }
            }
        }
        if v is Some {
            let vals = self.entities[e].values;
            let nvals = w.entities[e].values;
            if w.complete(e) {
                assert forall|c2: usize|
                    self.is_component(c2) && c2 != c && self.member(c2, a) implies #[trigger] self.value(e, c2) is Some by {
                    self.lemma_member_depth(a, c2);
                    assert(w.value(e, c2) == self.value(e, c2));
                    assert(nvals[self.layouts[c2 as int].index] is Some);
                }
            }
            if forall|c2: usize|
                self.is_component(c2) && c2 != c && self.member(c2, a) ==> #[trigger] self.value(e, c2) is Some {
                assert forall|k: int| 0 <= k < nvals.len() implies #[trigger] nvals[k] is Some by {
                    if k != d {
                        assert(self.layout_ok(a as int));
                        let c2 = self.chain(a)[k];
                        if k < self.layouts[a as int].index {
                            assert(self.layouts[a as int].except_self[k] < a);
                            assert(self.layouts[c2 as int].index == k);
                        } else {
                            assert(c2 == a);
                        }
                        assert(self.member(c2, a));
                        assert(self.value(e, c2) is Some);
                    }
                }
            }
        }
    }

    /// Adding a value and taking it out again gives the world back.
    pub proof fn lemma_add_then_remove(self, e: (usize, usize), c: usize, v: V)
        requires
            self.wf(),
            self.contains(e),
            self.is_component(c),
            self.member(c, self.archetype(e)),
            self.value(e, c) is None,
        ensures
            self.set_value(e, c, Some(v)).set_value(e, c, None) == self,
    {
        let d = self.layouts[c as int].index;
        self.lemma_member_depth(self.archetype(e), c);
        let w = self.set_value(e, c, Some(v)).set_value(e, c, None);
        assert(w.entities[e].values =~= self.entities[e].values);
        assert(w.entities =~= self.entities);
    }

    /// Writing back the value a component already has changes nothing.
    pub proof fn lemma_set_same_value(self, e: (usize, usize), c: usize)
        requires
            self.wf(),
            self.contains(e),
            self.is_component(c),
            self.member(c, self.archetype(e)),
        ensures
            self.set_value(e, c, self.value(e, c)) == self,
    {
        self.lemma_member_depth(self.archetype(e), c);
        let w = self.set_value(e, c, self.value(e, c));
        assert(w.entities[e].values =~= self.entities[e].values);
        assert(w.entities =~= self.entities);
    }

    /// Of two writes of the same value, the later one counts.
    pub proof fn lemma_set_value_twice(self, e: (usize, usize), c: usize, v1: Option<V>, v2: Option<V>)
        requires
            self.wf(),
            self.contains(e),
            self.is_component(c),
            self.member(c, self.archetype(e)),
        ensures
            self.set_value(e, c, v1).set_value(e, c, v2) == self.set_value(e, c, v2),
    {
        self.lemma_member_depth(self.archetype(e), c);
        let w1 = self.set_value(e, c, v1).set_value(e, c, v2);
        let w2 = self.set_value(e, c, v2);
        assert(w1.entities[e].values =~= w2.entities[e].values);
        assert(w1.entities =~= w2.entities);
    }

    /// Taking out one value is taking out the values of a set of one entity,
    /// and taking out the values of no entity changes nothing.
    pub proof fn lemma_without_values(self, c: usize, e: (usize, usize))
        requires
            self.wf(),
            self.contains(e),
            self.is_component(c),
            self.member(c, self.archetype(e)),
        ensures
            self.set_value(e, c, None) == self.without_values(c, set![e]),
            self.without_values(c, Set::empty()) == self,
    {
        self.lemma_member_depth(self.archetype(e), c);
        assert(self.set_value(e, c, None).entities =~= self.without_values(c, set![e]).entities);
        assert(self.without_values(c, Set::empty()).entities =~= self.entities);
    }

    /// Taking out the values of two sets one after the other is taking out
    /// the values of their union.
    pub proof fn lemma_without_values_union(self, c: usize, a: Set<(usize, usize)>, b: Set<(usize, usize)>)
        ensures
            self.without_values(c, a).without_values(c, b) == self.without_values(c, a.union(b)),
    {
        let w1 = self.without_values(c, a).without_values(c, b);
        let w2 = self.without_values(c, a.union(b));
        assert forall|k: (usize, usize)| #[trigger] w1.entities.contains_key(k) implies w1.entities[k] == w2.entities[k] by {
            if a.contains(k) && b.contains(k) {
                assert(w1.entities[k].values =~= w2.entities[k].values);
            }
        }
        assert(w1.entities =~= w2.entities);
    }

    /// Writes to two different entities can be made in either order.
    pub proof fn lemma_set_value_commute(
        self,
        e1: (usize, usize),
        c1: usize,
        v1: Option<V>,
        e2: (usize, usize),
        c2: usize,
        v2: Option<V>,
    )
        requires
            self.contains(e1),
            self.contains(e2),
            e1 != e2,
        ensures
            self.set_value(e1, c1, v1).set_value(e2, c2, v2) == self.set_value(e2, c2, v2).set_value(
                e1,
                c1,
                v1,
            ),
    {
        let w1 = self.set_value(e1, c1, v1).set_value(e2, c2, v2);
        let w2 = self.set_value(e2, c2, v2).set_value(e1, c1, v1);
        assert(w1.entities =~= w2.entities);
    }

    /// A new entity has no values yet; dropping it again gives the world
    /// back.
    pub proof fn lemma_create_then_drop(self, e: (usize, usize), a: usize)
        requires
            self.wf(),
            !self.contains(e),
            self.is_component(a),
        ensures
            self.with_entity(e, a).wf(),
            self.with_entity(e, a).contains(e),
            self.with_entity(e, a).archetype(e) == a,
            forall|c: usize| self.is_component(c) ==> #[trigger] self.with_entity(e, a).value(e, c) is None,
            !self.with_entity(e, a).complete(e),
            self.with_entity(e, a).layouts == self.layouts,
            self.with_entity(e, a).entities.dom() == self.entities.dom().insert(e),
            forall|f: (usize, usize)| f != e ==> #[trigger] self.with_entity(e, a).entities[f] == self.entities[f],
            self.with_entity(e, a).without_entity(e) == self,
    {
        let w = self.with_entity(e, a);
        assert(self.layout_ok(a as int));
        assert forall|b: int| 0 <= b < w.layouts.len() implies #[trigger] w.layout_ok(b) by {
            assert(self.layout_ok(b));
        }
        assert forall|f: (usize, usize)| #[trigger] w.entities.contains_key(f) implies {
            &&& w.is_component(w.entities[f].archetype)
            &&& w.entities[f].values.len() == w.layouts[w.entities[f].archetype as int].index + 1
        } by {
            if f != e {
                assert(self.entities.contains_key(f));
            }
        }
        assert forall|c: usize| self.is_component(c) implies #[trigger] w.value(e, c) is None by {
            if w.member(c, a) {
                self.lemma_member_depth(a, c);
            }
        }
        assert(!w.complete(e)) by {
            assert(w.entities[e].values[0] is None);
        }
        assert(w.without_entity(e).entities =~= self.entities);
    }

    /// Registering a component appends its layout to the layouts and leaves
    /// every earlier layout and every entity as they were.
    pub proof fn lemma_with_component_result(self, l: LayoutView)
        ensures
            self.with_component(l).layouts.len() == self.layouts.len() + 1,
            self.with_component(l).layouts[self.layouts.len() as int] == l,
            forall|i: int| 0 <= i < self.layouts.len() ==> #[trigger] self.with_component(l).layouts[i] == self.layouts[i],
            self.with_component(l).entities == self.entities,
    {
    }

    /// Dropping entity `e` takes it out of the world and leaves every other
    /// entity, its archetype and its values, and every layout as they were.
    pub proof fn lemma_drop_result(self, e: (usize, usize))
        requires
            self.wf(),
            self.contains(e),
        ensures
            self.without_entity(e).wf(),
            !self.without_entity(e).contains(e),
            self.without_entity(e).layouts == self.layouts,
            self.without_entity(e).entities.dom() == self.entities.dom().remove(e),
            forall|f: (usize, usize)| f != e ==> #[trigger] self.without_entity(e).entities[f] == self.entities[f],
            forall|f: (usize, usize), c: usize|
                f != e && self.contains(f) ==> #[trigger] self.without_entity(e).value(f, c) == self.value(f, c),
    {
        let w = self.without_entity(e);
        assert forall|b: int| 0 <= b < w.layouts.len() implies #[trigger] w.layout_ok(b) by {
            assert(self.layout_ok(b));
        }
        assert forall|f: (usize, usize)| #[trigger] w.entities.contains_key(f) implies {
            &&& w.is_component(w.entities[f].archetype)
            &&& w.entities[f].values.len() == w.layouts[w.entities[f].archetype as int].index + 1
        } by {
            assert(self.entities.contains_key(f));
        }
    }

    /// The value of component `c1` of the archetype of `a` is aligned for the
    /// component, lies inside the row, and does not overlap the value of
    /// `c2`; the row's size is a multiple of the row's alignment and of the
    /// component's alignment, which is not larger than the row's.
    pub open spec fn layout_sound(self, a: usize, c1: usize, c2: usize) -> bool {
        let l1 = self.layouts[c1 as int];
        let la = self.layouts[a as int];
        &&& l1.offset % l1.field_align == 0
        &&& l1.offset + l1.field_size <= la.size
        &&& la.size % la.align == 0
        &&& la.size % l1.field_align == 0
        &&& l1.field_align <= la.align
        &&& c1 != c2 ==> {
            ||| l1.offset + l1.field_size <= self.layouts[c2 as int].offset
            ||| self.layouts[c2 as int].offset + self.layouts[c2 as int].field_size <= l1.offset
        }
    }

    /// The layout of every archetype is sound for its row storage: the value
    /// of each of its components is aligned for the component, lies inside
    /// the row, and does not overlap the value of any other component of
    /// the archetype; and rows placed one after another keep every value
    /// aligned.
    pub proof fn lemma_layout_sound(self, a: usize, c1: usize, c2: usize)
        requires
            self.layouts_wf(),
            self.is_component(a),
            self.is_component(c1),
            self.is_component(c2),
            self.member(c1, a),
            self.member(c2, a),
        ensures
            self.layout_sound(a, c1, c2),
    {
        self.lemma_member_depth(a, c1);
        self.lemma_member_depth(a, c2);
        let d1 = self.layouts[c1 as int].index;
        let d2 = self.layouts[c2 as int].index;
        self.lemma_chain_monotone(a, d1);
        self.lemma_chain_monotone(a, d2);
        assert(self.layout_ok(c1 as int));
        assert(self.layout_ok(a as int));
        reveal(vstd::arithmetic::power2::is_pow2);
        crate::layout::lemma_mod_trans(
            self.layouts[a as int].size,
            self.layouts[a as int].align,
            self.layouts[c1 as int].field_align,
        );
        let fa = self.layouts[c1 as int].field_align;
        let ra = self.layouts[a as int].align;
        assert(fa <= ra) by (nonlinear_arith)
            requires
                ra % fa == 0,
                ra > 0,
                fa > 0,
        {
            let q = ra / fa;
            assert(ra == q * fa);
            assert(q >= 1);
        }
        if c1 != c2 {
            if d1 < d2 {
                self.lemma_chain_ordered(a, d1, d2);
            } else if d2 < d1 {
                self.lemma_chain_ordered(a, d2, d1);
            } else {
                self.lemma_member_depth_unique(a, c1, c2);
            }
        }
    }

    /// The component at depth `d` of the chain of `a` ends its value before
    /// the end of the archetype's values, and the archetype's row size and
    /// alignment are multiples of that component's alignment.
    pub proof fn lemma_chain_monotone(self, a: usize, d: int)
        requires
            self.layouts_wf(),
            self.is_component(a),
            0 <= d <= self.layouts[a as int].index,
        ensures
            ({
                let c = self.chain(a)[d];
                &&& self.is_component(c)
                &&& self.layouts[c as int].index == d
                &&& self.layouts[c as int].unaligned_size <= self.layouts[a as int].unaligned_size
                &&& self.layouts[a as int].align % self.layouts[c as int].field_align == 0
                &&& self.layouts[a as int].align % self.layouts[c as int].align == 0
            }),
        decreases self.layouts[a as int].index - d,
    {
        let la = self.layouts[a as int];
        assert(self.layout_ok(a as int));
        reveal(vstd::arithmetic::power2::is_pow2);
        if d == la.index {
            assert(self.chain(a)[d] == a);
            lemma_pow2_mod_self(la.align);
        } else {
            let b = la.except_self.last();
            assert(la.except_self[la.index - 1] == b);
            assert(self.layout_ok(b as int));
            let lb = self.layouts[b as int];
            assert(lb.index == la.index - 1);
            crate::layout::lemma_pow2_max(lb.align, la.field_align);
            crate::layout::lemma_type_layout::<Option<usize>>();
            crate::layout::lemma_derived_layout_wf(lb, b, la.field_size, la.field_align);
            self.lemma_chain_monotone(b, d);
            assert(lb.except_self == la.except_self.take(la.index - 1));
            assert(self.chain(b)[d] == self.chain(a)[d]) by {
                if d < lb.index {
                    assert(lb.except_self[d] == la.except_self[d]);
                } else {
                    assert(self.chain(b)[d] == b);
                }
            }
            let c = self.chain(a)[d];
            assert(self.layout_ok(c as int));
            crate::layout::lemma_mod_trans(la.align as int, lb.align as int, self.layouts[c as int].field_align);
            crate::layout::lemma_mod_trans(la.align as int, lb.align as int, self.layouts[c as int].align);
        }
    }

    /// Along the chain of `a`, a deeper component's value starts after a
    /// shallower component's value ends.
    pub proof fn lemma_chain_ordered(self, a: usize, d1: int, d2: int)
        requires
            self.layouts_wf(),
            self.is_component(a),
            0 <= d1 < d2 <= self.layouts[a as int].index,
        ensures
            self.layouts[self.chain(a)[d1] as int].offset + self.layouts[self.chain(a)[d1] as int].field_size
                <= self.layouts[self.chain(a)[d2] as int].offset,
        decreases d2,
    {
        reveal(vstd::arithmetic::power2::is_pow2);
        let c2 = self.chain(a)[d2];
        self.lemma_chain_monotone(a, d2);
        assert(self.layout_ok(c2 as int));
        let l2 = self.layouts[c2 as int];
        let b = l2.except_self.last();
        assert(l2.except_self[l2.index - 1] == b);
        assert(self.layout_ok(b as int));
        crate::layout::lemma_align_up(self.layouts[b as int].unaligned_size, l2.field_align);
        // The base of `c2` is the component just above it in the chain of `a`.
        assert(self.chain(a)[d2 - 1] == b) by {
            assert(self.layout_ok(a as int));
            let la = self.layouts[a as int];
            if d2 < la.index {
                assert(la.except_self[d2] == c2);
                assert(l2.except_self == la.except_self.take(d2));
            } else {
                assert(c2 == a);
            }
        }
        self.lemma_chain_monotone(a, d2 - 1);
        self.lemma_chain_monotone(b, d1);
        assert(self.chain(b)[d1] == self.chain(a)[d1]) by {
            assert(self.layout_ok(a as int));
            let la = self.layouts[a as int];
            let lb = self.layouts[b as int];
            if d2 < la.index {
                assert(la.except_self[d2] == c2);
                assert(l2.except_self == la.except_self.take(d2));
            } else {
                assert(c2 == a);
            }
            assert(lb.except_self == l2.except_self.take(d2 - 1));
            if d1 < d2 - 1 {
                assert(lb.except_self[d1] == l2.except_self[d1]);
            }
        }
        let c1 = self.chain(a)[d1];
        assert(self.layout_ok(c1 as int));
    }

    /// A row of every archetype is large enough and aligned enough to hold
    /// the link of the storage's free list.
    pub proof fn lemma_row_holds_link(self, a: usize)
        requires
            self.layouts_wf(),
            self.is_component(a),
        ensures
            self.layouts[a as int].size >= crate::layout::link_size(),
            self.layouts[a as int].align % crate::layout::link_align() == 0,
    {
        assert(self.layout_ok(a as int));
        let la = self.layouts[a as int];
        crate::layout::lemma_type_layout::<Option<usize>>();
        if la.index == 0 {
            crate::layout::lemma_pow2_max(la.field_align, crate::layout::link_align());
            crate::layout::lemma_align_up(
                crate::layout::max(crate::layout::max(la.field_size, la.field_align), crate::layout::link_size()),
                crate::layout::root_align(la.field_align),
            );
        } else {
            let b = la.except_self.last();
            assert(la.except_self[la.index - 1] == b);
            assert(self.layout_ok(b as int));
            crate::layout::lemma_derived_layout_wf(self.layouts[b as int], b, la.field_size, la.field_align);
        }
    }
}

/// A power of two divides itself.
proof fn lemma_pow2_mod_self(p: int)
    requires
        vstd::arithmetic::power2::is_pow2(p),
    ensures
        p % p == 0,
{
    crate::layout::lemma_pow2_divides(p, p);
}


} // verus!
