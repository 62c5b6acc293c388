//! The store façade: entity id allocation and reuse, the spawn / attach /
//! query / delete / commit protocol, and the singleton resource table. It
//! keeps the membership index and the column store in agreement: no caller
//! can move one without the other.

use vstd::prelude::*;

use crate::bitmap::BitMap;
use crate::bitmap::MAX_COMPONENT_TYPES;
use crate::bitmap::lemma_bits_are_registration_order;
use crate::bitmap::lemma_matching_upto_props;
use crate::components::ComponentData;
use crate::entity_data::CAPACITY_STEP;
use crate::entity_data::EntityData;
use crate::entity_data::blank_column;
use crate::errors::BbEcsError;

verus! {

/// The reserved component type that flags an entity for removal at the next
/// commit. It is registered first, so it always owns mask bit 0.
pub open spec fn delete_name() -> Seq<char> {
    "to be deleted"@
}

/// The reserved component type that carries each live entity's own id. It is
/// registered second, so it always owns mask bit 1.
pub open spec fn id_name() -> Seq<char> {
    "entity id"@
}

/// The deletion-flag component's name.
pub fn to_be_deleted() -> (r: &'static str)
    ensures
        r@ == delete_name(),
{
    "to be deleted"
}

/// The identity component's name.
pub fn entity_id() -> (r: &'static str)
    ensures
        r@ == id_name(),
{
    "entity id"
}

/// Attaching a component and storing a resource, for each payload kind the
/// store accepts. Each implementation wraps its payload into the tagged
/// container and forwards to [`World::attach_component`] and
/// [`World::put_resource`]; its two relation spec functions state exactly
/// that behavior, so a call through the trait carries the full contract.
pub trait WorldMethods<T>: Sized {
    /// Whether the store is in a state its operations may be called in.
    spec fn wf_spec(&self) -> bool;

    /// How `with_component` relates the store before and after the call.
    spec fn with_component_spec(
        pre: Self,
        name: Seq<char>,
        data: T,
        post: Self,
        r: Result<(), BbEcsError>,
    ) -> bool;

    /// How `add_resource` relates the store before and after the call.
    spec fn add_resource_spec(pre: Self, name: Seq<char>, data: T, post: Self) -> bool;

    /// Attach `data` under component type `name` to the most recently
    /// spawned entity.
    fn with_component(&mut self, name: &str, data: T) -> (r: Result<(), BbEcsError>)
        requires
            old(self).wf_spec(),
        ensures
            final(self).wf_spec(),
            Self::with_component_spec(*old(self), name@, data, *final(self), r),
    ;

    /// Store `data` under `name` in the singleton resource table,
    /// overwriting any earlier value.
    fn add_resource(&mut self, name: String, data: T)
        requires
            old(self).wf_spec(),
        ensures
            final(self).wf_spec(),
            Self::add_resource_spec(*old(self), name@, data, *final(self)),
    ;
}

/// A column as spawning leaves it: padded by one capacity block when the
/// spawned id was the first to need it, untouched otherwise.
pub open spec fn grown_column(col: Seq<ComponentData>, grew: bool) -> Seq<ComponentData> {
    if grew {
        col + blank_column(CAPACITY_STEP as nat)
    } else {
        col
    }
}

/// One step of the id allocator: the most recently freed id leaves the reuse
/// queue, or, when none waits, the fresh id counter is handed out and
/// advanced. The triple is the allocated id, the queue after the step and
/// the counter after the step.
pub open spec fn alloc_step(queue: Seq<usize>, next: int) -> (int, Seq<usize>, int) {
    if queue.len() == 0 {
        (next, queue, next + 1)
    } else {
        (queue.last() as int, queue.drop_last(), next)
    }
}

/// The ids that a run of `n` allocations hands out when it starts with an
/// empty reuse queue and a zero counter, as every fresh store does.
pub open spec fn fresh_alloc_ids(n: nat) -> Seq<int>
    decreases n,
{
    if n == 0 {
        Seq::empty()
    } else {
        fresh_alloc_ids((n - 1) as nat).push(alloc_step(Seq::empty(), n - 1).0)
    }
}

/// The mask words after a list of entities is flagged for deletion, first to
/// last: each listed slot that holds a live entity, found so by its identity
/// bit, gains the deletion bit; every other slot keeps its word.
pub open spec fn flagged_slots(slots: Seq<u64>, ids: Seq<usize>, emask: u64, dmask: u64) -> Seq<u64>
    decreases ids.len(),
{
    if ids.len() == 0 {
        slots
    } else {
        let s1 = flagged_slots(slots, ids.drop_last(), emask, dmask);
        let id = ids.last();
        if id < s1.len() && s1[id as int] & emask != 0 {
            s1.update(id as int, s1[id as int] | dmask)
        } else {
            s1
        }
    }
}

/// How one component write relates the store before and after it. Aimed at
/// a slot no live entity holds, or at an unregistered name, it fails and
/// changes nothing; otherwise the named column gains the value at the
/// target slot, the slot's mask word gains the name's bit, and nothing else
/// moves.
pub open spec fn write_spec(
    pre: World,
    name: Seq<char>,
    target: int,
    value: ComponentData,
    post: World,
    r: Result<(), BbEcsError>,
) -> bool {
    &&& post.names() == pre.names()
    &&& post.capacity() == pre.capacity()
    &&& post.next_id() == pre.next_id()
    &&& post.last_spawned() == pre.last_spawned()
    &&& post.reuse_queue() == pre.reuse_queue()
    &&& post.resource_names() == pre.resource_names()
    &&& post.resource_vals() == pre.resource_vals()
    &&& !pre.is_live(target) ==> post == pre && r == Err::<(), BbEcsError>(
        BbEcsError::InsertBeforeSpawn,
    )
    &&& pre.is_live(target) && pre.is_registered(name) ==> {
        &&& r is Ok
        &&& post.slots() == pre.slots().update(target, pre.slots()[target] | pre.mask_of(name))
        &&& post.col_of(name) == pre.col_of(name).update(target, value)
        &&& forall|nm: Seq<char>|
            pre.is_registered(nm) && nm != name ==> #[trigger] post.col_of(nm) == pre.col_of(nm)
    }
    &&& pre.is_live(target) && !pre.is_registered(name) ==> post == pre && r == Err::<
        (),
        BbEcsError,
    >(BbEcsError::NeedToRegister)
}

/// How attaching relates the store before and after it: a component write
/// aimed at the most recently spawned entity's slot.
pub open spec fn attach_spec(
    pre: World,
    name: Seq<char>,
    value: ComponentData,
    post: World,
    r: Result<(), BbEcsError>,
) -> bool {
    write_spec(pre, name, pre.last_spawned(), value, post, r)
}

/// How storing a resource relates the store before and after it: the entity
/// side never moves, and the named resource gains the value — in place when
/// the name was already stored, at the end of the table otherwise.
pub open spec fn put_resource_spec(
    pre: World,
    name: Seq<char>,
    value: ComponentData,
    post: World,
) -> bool {
    &&& post.names() == pre.names()
    &&& post.slots() == pre.slots()
    &&& post.capacity() == pre.capacity()
    &&& post.next_id() == pre.next_id()
    &&& post.last_spawned() == pre.last_spawned()
    &&& post.reuse_queue() == pre.reuse_queue()
    &&& forall|nm: Seq<char>| #[trigger] post.col_of(nm) == pre.col_of(nm)
    &&& pre.has_resource(name) ==> post.resource_names() == pre.resource_names()
        && post.resource_vals() == pre.resource_vals().update(
        pre.resource_names().index_of(name),
        value,
    )
    &&& !pre.has_resource(name) ==> post.resource_names() == pre.resource_names().push(name)
        && post.resource_vals() == pre.resource_vals().push(value)
}

/// The entity-component store.
pub struct World {
    entity_data: EntityData,
    resources: Vec<(String, ComponentData)>,
    id_reuse_queue: Vec<usize>,
    next_entity_id: usize,
    last_spawned_id: usize,
    bitmap: BitMap,
}

impl World {
    /// The registered component type names, in registration order.
    pub closed spec fn names(self) -> Seq<Seq<char>> {
        self.bitmap.names()
    }

    /// The membership mask words, one per entity slot.
    pub closed spec fn slots(self) -> Seq<u64> {
        self.bitmap.slots()
    }

    /// The shared capacity of every value column.
    pub closed spec fn capacity(self) -> nat {
        self.entity_data.capacity()
    }

    pub open spec fn is_registered(self, name: Seq<char>) -> bool {
        self.names().contains(name)
    }

    /// The value column of a registered component type.
    pub closed spec fn col_of(self, name: Seq<char>) -> Seq<ComponentData> {
        self.entity_data.col_of(name)
    }

    /// The ids waiting to be handed out again, oldest first.
    pub closed spec fn reuse_queue(self) -> Seq<usize> {
        self.id_reuse_queue@
    }

    /// The id the next fresh spawn would allocate; also the slot count.
    pub closed spec fn next_id(self) -> int {
        self.next_entity_id as int
    }

    /// The id of the most recently spawned entity.
    pub closed spec fn last_spawned(self) -> int {
        self.last_spawned_id as int
    }

    /// The one-bit mask of a registered component type.
    pub closed spec fn mask_of(self, name: Seq<char>) -> u64 {
        self.bitmap.mask_of(name)
    }

    /// The one-bit mask of the identity component.
    pub closed spec fn entity_mask(self) -> u64 {
        self.bitmap.mask_of(id_name())
    }

    /// The one-bit mask of the deletion-flag component.
    pub closed spec fn delete_mask(self) -> u64 {
        self.bitmap.mask_of(delete_name())
    }

    /// A live entity occupies slot `i`: the identity bit is set there.
    pub open spec fn is_live(self, i: int) -> bool {
        0 <= i < self.slots().len() && self.slots()[i] & self.entity_mask() != 0
    }

    /// Slot `i` is flagged to be removed at the next commit.
    pub open spec fn is_flagged(self, i: int) -> bool {
        0 <= i < self.slots().len() && self.slots()[i] & self.delete_mask() == self.delete_mask()
    }

    /// The combined mask a query for these names matches against.
    pub closed spec fn request_mask(self, names: Seq<Seq<char>>) -> u64 {
        self.bitmap.request_mask(names)
    }

    /// The slots a query for these names returns, in ascending order.
    pub closed spec fn query_hits(self, names: Seq<Seq<char>>) -> Seq<usize> {
        BitMap::matching_upto(
            self.slots(),
            self.bitmap.request_mask(names),
            self.slots().len() as int,
        )
    }

    /// The names of the stored resources.
    pub closed spec fn resource_names(self) -> Seq<Seq<char>> {
        self.resources@.map_values(|p: (String, ComponentData)| p.0@)
    }

    /// The stored resource values, in the same order as `resource_names()`.
    pub closed spec fn resource_vals(self) -> Seq<ComponentData> {
        self.resources@.map_values(|p: (String, ComponentData)| p.1)
    }

    pub open spec fn has_resource(self, name: Seq<char>) -> bool {
        self.resource_names().contains(name)
    }

    /// The value stored under a resource name.
    pub open spec fn resource_of(self, name: Seq<char>) -> ComponentData {
        self.resource_vals()[self.resource_names().index_of(name)]
    }

    /// The id the next spawn hands out: the most recently freed id if any
    /// wait for reuse, else a fresh one.
    pub closed spec fn spawn_id(self) -> usize {
        if self.reuse_queue().len() == 0 {
            self.next_entity_id
        } else {
            self.reuse_queue().last()
        }
    }

    /// The façade's invariant: both layers are well-formed and agree on the
    /// registered names; the two reserved types hold bits 0 and 1; one mask
    /// word exists per allocated id and every column can hold every slot;
    /// ids waiting for reuse are distinct, allocated, and their slots are
    /// empty; resource names are distinct.
    pub closed spec fn wf(self) -> bool {
        &&& self.bitmap.wf()
        &&& self.entity_data.wf()
        &&& self.bitmap.names() == self.entity_data.names()
        &&& self.names().len() >= 2
        &&& self.names()[0] == delete_name()
        &&& self.names()[1] == id_name()
        &&& self.slots().len() == self.next_entity_id
        &&& self.slots().len() <= self.capacity()
        &&& forall|k: int|
            0 <= k < self.reuse_queue().len() ==> (#[trigger] self.reuse_queue()[k])
                < self.next_entity_id
        &&& forall|k: int|
            0 <= k < self.reuse_queue().len() ==> self.slots()[self.reuse_queue()[k] as int] == 0
        &&& forall|a: int, b: int|
            0 <= a < b < self.reuse_queue().len() ==> self.reuse_queue()[a]
                != self.reuse_queue()[b]
        &&& forall|a: int, b: int|
            0 <= a < b < self.resource_names().len() ==> self.resource_names()[a]
                != self.resource_names()[b]
    }

    /// A fresh store: no entities, no free ids, no resources, and only the
    /// two reserved component types registered.
    pub fn new() -> (r: Self)
        ensures
            r.wf(),
            r.names() =~= seq![delete_name(), id_name()],
            r.slots() =~= Seq::<u64>::empty(),
            r.reuse_queue() =~= Seq::<usize>::empty(),
            r.next_id() == 0,
            r.capacity() == CAPACITY_STEP,
            r.resource_names() =~= Seq::<Seq<char>>::empty(),
            r.col_of(delete_name()) == blank_column(CAPACITY_STEP as nat),
            r.col_of(id_name()) == blank_column(CAPACITY_STEP as nat),
    {
        let mut entity_data = EntityData::new();
        let mut bitmap = BitMap::new();
        proof {
            reveal_strlit("to be deleted");
            reveal_strlit("entity id");
            assert(delete_name().len() == 13);
            assert(id_name().len() == 9);
        }
        let _ = entity_data.register(to_be_deleted().to_owned());
        let _ = bitmap.register(to_be_deleted().to_owned());
        let _ = entity_data.register(entity_id().to_owned());
        let _ = bitmap.register(entity_id().to_owned());
        let w = Self {
            entity_data,
            resources: Vec::new(),
            id_reuse_queue: Vec::new(),
            next_entity_id: 0,
            last_spawned_id: 0,
            bitmap,
        };
        proof {
            assert(w.names() =~= seq![delete_name(), id_name()]);
            assert(w.entity_data.names() =~= seq![delete_name(), id_name()]);
            assert(w.col_of(delete_name()) == w.entity_data.cols()[w.entity_data.col_index(
                delete_name(),
            )]);
        }
        w
    }

    /// Register a component type under a fresh name, creating its membership
    /// bit and its value column together; neither layer changes unless both
    /// do. Unlike the layers below, the façade treats a repeated
    /// registration as an error, the reserved names included.
    pub fn register(&mut self, name: &str) -> (r: Result<(), BbEcsError>)
        requires
            old(self).wf(),
        ensures
            final(self).wf(),
            final(self).slots() == old(self).slots(),
            final(self).capacity() == old(self).capacity(),
            final(self).reuse_queue() == old(self).reuse_queue(),
            final(self).next_id() == old(self).next_id(),
            final(self).last_spawned() == old(self).last_spawned(),
            final(self).resource_names() == old(self).resource_names(),
            final(self).resource_vals() == old(self).resource_vals(),
            old(self).is_registered(name@) ==> *final(self) == *old(self) && (r matches Err(e)
                && e matches BbEcsError::ComponentAlreadyRegistered(s) && s@ == name@),
            !old(self).is_registered(name@) && old(self).names().len() < MAX_COMPONENT_TYPES ==> {
                &&& r is Ok
                &&& final(self).names() == old(self).names().push(name@)
                &&& final(self).col_of(name@) == blank_column(old(self).capacity())
                &&& forall|nm: Seq<char>|
                    old(self).is_registered(nm) ==> #[trigger] final(self).col_of(nm) == old(
                        self,
                    ).col_of(nm)
            },
            !old(self).is_registered(name@) && old(self).names().len() >= MAX_COMPONENT_TYPES
                ==> *final(self) == *old(self) && (r matches Err(e) && e matches
                BbEcsError::TooManyComponentTypes(s) && s@ == name@),
    {
        if self.bitmap.contains_name(name) {
            return Err(BbEcsError::ComponentAlreadyRegistered(name.to_owned()));
        }
        if self.bitmap.num_registered() >= BitMap::max_component_types() {
            return Err(BbEcsError::TooManyComponentTypes(name.to_owned()));
        }
        let ghost pre = *self;
        let _ = self.entity_data.register(name.to_owned());
        let _ = self.bitmap.register(name.to_owned());
        proof {
            assert(self.reuse_queue() == old(self).reuse_queue());
            assert(self.slots() == old(self).slots());
            assert(self.next_entity_id == old(self).next_entity_id);
            assert(self.resources == old(self).resources);
            assert(self.resource_names() == old(self).resource_names());
            assert(self.resource_vals() == old(self).resource_vals());
            assert(self.names() =~= pre.names().push(name@));
            assert forall|nm: Seq<char>|
                pre.is_registered(nm) implies #[trigger] self.col_of(nm) == pre.col_of(nm) by {
                let c = pre.entity_data.col_index(nm);
                assert(0 <= c < pre.entity_data.names().len() && pre.entity_data.names()[c] == nm);
                assert(self.entity_data.names()[c] == nm);
                let c2 = self.entity_data.col_index(nm);
                assert(0 <= c2 < self.entity_data.names().len() && self.entity_data.names()[c2]
                    == nm);
                if c < c2 {
                    assert(self.entity_data.names()[c] != self.entity_data.names()[c2]);
                } else if c2 < c {
                    assert(self.entity_data.names()[c2] != self.entity_data.names()[c]);
                }
                assert(c == c2);
            }
            assert(self.entity_data.names() =~= self.bitmap.names());
            let last = self.entity_data.names().len() - 1;
            assert(self.entity_data.names()[last] == name@);
            assert(self.entity_data.is_registered(name@));
            let c = self.entity_data.col_index(name@);
            assert(0 <= c < self.entity_data.names().len() && self.entity_data.names()[c]
                == name@);
            if c < last {
                assert(self.entity_data.names()[c] != self.entity_data.names()[last]);
            }
            assert(c == last);
            assert(self.col_of(name@) == blank_column(pre.capacity()));
        }
        Ok(())
    }

    /// Spawn one entity: hand out the most recently freed id, or a fresh one
    /// when none waits for reuse; make room for its slot in both layers; and
    /// stamp the identity component into it. The returned id is never the id
    /// of an entity that was live before the call.
    pub fn spawn_entity(&mut self) -> (r: Result<usize, BbEcsError>)
        requires
            old(self).wf(),
            old(self).next_id() + 1 <= usize::MAX,
            old(self).capacity() + CAPACITY_STEP <= usize::MAX,
        ensures
            final(self).wf(),
            r == Ok::<usize, BbEcsError>(old(self).spawn_id()),
            final(self).last_spawned() == old(self).spawn_id(),
            final(self).names() == old(self).names(),
            final(self).resource_names() == old(self).resource_names(),
            final(self).resource_vals() == old(self).resource_vals(),
            old(self).reuse_queue().len() == 0 ==> {
                &&& final(self).next_id() == old(self).next_id() + 1
                &&& final(self).reuse_queue() == old(self).reuse_queue()
                &&& final(self).slots() == old(self).slots().push(0u64).update(
                    old(self).next_id(),
                    old(self).entity_mask(),
                )
            },
            old(self).reuse_queue().len() > 0 ==> {
                &&& final(self).next_id() == old(self).next_id()
                &&& final(self).reuse_queue() == old(self).reuse_queue().drop_last()
                &&& final(self).slots() == old(self).slots().update(
                    old(self).spawn_id() as int,
                    old(self).entity_mask(),
                )
            },
            alloc_step(old(self).reuse_queue(), old(self).next_id()) == (
                old(self).spawn_id() as int,
                final(self).reuse_queue(),
                final(self).next_id(),
            ),
            !old(self).is_live(old(self).spawn_id() as int),
            final(self).is_live(old(self).spawn_id() as int),
            old(self).spawn_id() == old(self).capacity() ==> final(self).capacity() == old(
                self,
            ).capacity() + CAPACITY_STEP,
            old(self).spawn_id() != old(self).capacity() ==> final(self).capacity() == old(
                self,
            ).capacity(),
            forall|nm: Seq<char>|
                old(self).is_registered(nm) && nm != id_name() ==> #[trigger] final(self).col_of(nm)
                    == grown_column(
                    old(self).col_of(nm),
                    old(self).spawn_id() == old(self).capacity(),
                ),
            final(self).col_of(id_name()) == grown_column(
                old(self).col_of(id_name()),
                old(self).spawn_id() == old(self).capacity(),
            ).update(
                old(self).spawn_id() as int,
                ComponentData::Usize(old(self).spawn_id()),
            ),
    {
        proof {
            lemma_reserved_masks(*self);
        }
        let id: usize;
        if self.id_reuse_queue.len() > 0 {
            id = match self.id_reuse_queue.pop() {
                Some(i) => i,
                None => 0,
            };
        } else {
            id = self.next_entity_id;
            self.next_entity_id += 1;
        }
        self.last_spawned_id = id;
        proof {
            if old(self).reuse_queue().len() > 0 {
                assert(old(self).slots()[id as int] == 0);
                assert(0u64 & 2u64 == 0u64) by (bit_vector);
            }
        }
        let _ = self.entity_data.spawn_entity(id);
        let _ = self.bitmap.spawn_entity(id);
        let ghost mid = *self;
        proof {
            assert(old(self).names()[1] == id_name());
            assert(mid.entity_data.is_registered(id_name()));
            lemma_grow_cols(old(self).entity_data, mid.entity_data, id == old(self).capacity());
            assert(id < self.entity_data.capacity());
            assert(id < self.bitmap.slots().len());
        }
        let _ = self.entity_data.insert(entity_id(), id, ComponentData::Usize(id));
        let _ = self.bitmap.insert(id, entity_id());
        proof {
            lemma_col_updates(
                mid.entity_data,
                self.entity_data,
                id_name(),
                id as int,
                ComponentData::Usize(id),
            );
            assert(0u64 | 2u64 == 2u64) by (bit_vector);
            assert(2u64 & 2u64 == 2u64) by (bit_vector);
            assert(self.resources == old(self).resources);
            assert(self.resource_names() == old(self).resource_names());
            assert(self.resource_vals() == old(self).resource_vals());
            if old(self).reuse_queue().len() == 0 {
                assert(self.bitmap.slots() =~= old(self).slots().push(0u64).update(
                    old(self).next_id(),
                    old(self).entity_mask(),
                ));
            } else {
                assert(self.bitmap.slots() =~= old(self).slots().update(
                    old(self).spawn_id() as int,
                    old(self).entity_mask(),
                ));
                assert(self.id_reuse_queue@ =~= old(self).reuse_queue().drop_last());
                assert forall|k: int|
                    0 <= k < self.reuse_queue().len() implies self.slots()[self.reuse_queue()[k] as int]
                    == 0 by {
                    let ql = old(self).reuse_queue().len();
                    assert(self.reuse_queue()[k] == old(self).reuse_queue()[k]);
                    assert(old(self).reuse_queue()[k] != old(self).reuse_queue()[ql - 1]);
                    assert(old(self).slots()[old(self).reuse_queue()[k] as int] == 0);
                }
            }
        }
        Ok(id)
    }

    /// Overwrite component type `name` of the live entity holding `id`,
    /// writing the value column and the membership bit together. The write
    /// fails, and changes nothing, when no live entity holds `id` or when
    /// `name` was never registered.
    pub fn set_component(&mut self, name: &str, id: usize, value: ComponentData) -> (r: Result<
        (),
        BbEcsError,
    >)
        requires
            old(self).wf(),
        ensures
            final(self).wf(),
            write_spec(*old(self), name@, id as int, value, *final(self), r),
    {
        proof {
            lemma_reserved_masks(*self);
            assert(self.names()[1] == id_name());
            assert(self.bitmap.is_registered(id_name()));
        }
        if id >= self.bitmap.num_slots() {
            return Err(BbEcsError::InsertBeforeSpawn);
        }
        let emask = match self.bitmap.name_mask(entity_id()) {
            Some(m) => m,
            None => {
                proof {
                    assert(false);
                }
                return Err(BbEcsError::InsertBeforeSpawn);
            },
        };
        if self.bitmap.mask_word(id) & emask == 0 {
            return Err(BbEcsError::InsertBeforeSpawn);
        }
        let ghost pre = *self;
        proof {
            assert(0u64 & 2u64 == 0u64) by (bit_vector);
        }
        match self.entity_data.insert(name, id, value) {
            Ok(()) => {
                let _ = self.bitmap.insert(id, name);
                proof {
                    lemma_col_updates(pre.entity_data, self.entity_data, name@, id as int, value);
                    assert(0u64 & 2u64 == 0u64) by (bit_vector);
                    assert(self.resources == old(self).resources);
                    assert(self.resource_names() == old(self).resource_names());
                    assert(self.resource_vals() == old(self).resource_vals());
                    assert forall|k: int|
                        0 <= k < self.reuse_queue().len() implies self.slots()[self.reuse_queue()[k] as int]
                        == 0 by {
                        let q = pre.reuse_queue()[k];
                        assert(pre.slots()[q as int] == 0);
                        assert(q != id);
                    }
                }
                Ok(())
            },
            Err(_) => Err(BbEcsError::NeedToRegister),
        }
    }

    /// Attach `data` under component type `name` to the most recently
    /// spawned entity, writing the value column and the membership bit
    /// together. Attaching fails, and changes nothing, when no spawned
    /// entity is live to receive it or when `name` was never registered.
    pub fn attach_component(&mut self, name: &str, data: ComponentData) -> (r: Result<
        (),
        BbEcsError,
    >)
        requires
            old(self).wf(),
        ensures
            final(self).wf(),
            attach_spec(*old(self), name@, data, *final(self), r),
    {
        let last = self.last_spawned_id;
        self.set_component(name, last, data)
    }

    /// The per-type views of every entity that carries all the requested
    /// component types: for each requested name, in request order, the
    /// values of that name's column at the matching slots, in ascending slot
    /// order. The matching slot list is one and the same for every requested
    /// name, so the k-th value of each returned column belongs to the k-th
    /// matching entity.
    pub fn query<'a>(&'a self, names: Vec<&str>) -> (r: Result<
        Vec<(String, Vec<&'a ComponentData>)>,
        BbEcsError,
    >)
        requires
            self.wf(),
        ensures
            match r {
                Ok(res) => {
                    &&& forall|j: int| 0 <= j < names@.len() ==> self.is_registered(names@[j]@)
                    &&& res@.len() == names@.len()
                    &&& forall|j: int| 0 <= j < names@.len() ==> (#[trigger] res@[j]).0@
                        == names@[j]@
                    &&& forall|j: int| 0 <= j < names@.len() ==> (#[trigger] res@[j]).1@.len()
                        == self.query_hits(names@.map_values(|s: &str| s@)).len()
                    &&& forall|j: int, k: int|
                        0 <= j < names@.len() && 0 <= k < self.query_hits(
                            names@.map_values(|s: &str| s@),
                        ).len() ==> (#[trigger] res@[j].1@[k]) == self.col_of(
                            names@[j]@,
                        )[self.query_hits(names@.map_values(|s: &str| s@))[k] as int]
                },
                Err(e) => {
                    &&& exists|j: int|
                        0 <= j < names@.len() && !self.is_registered(names@[j]@) && (forall|i: int|
                            0 <= i < j ==> self.is_registered(names@[i]@)) && (e matches
                        BbEcsError::ComponentNotFound(s) && s@ == names@[j]@)
                },
            },
    {
        let names_again = names.clone();
        proof {
            assert forall|j: int| 0 <= j < names@.len() implies names_again@[j] == names@[j] by {}
            assert(names_again@ =~= names@);
        }
        let hits = match self.bitmap.query(names) {
            Ok(v) => v,
            Err(e) => {
                return Err(e);
            },
        };
        proof {
            lemma_matching_upto_props(
                self.slots(),
                self.bitmap.request_mask(names_again@.map_values(|s: &str| s@)),
                self.slots().len() as int,
            );
            assert(forall|k: int| 0 <= k < hits@.len() ==> hits@[k] < self.capacity());
        }
        let res = match self.entity_data.query(names_again, hits.as_slice()) {
            Ok(v) => v,
            Err(e) => {
                proof {
                    assert(false);
                }
                return Err(e);
            },
        };
        Ok(res)
    }

    /// Flag one entity for removal at the next commit. Flagging an id that
    /// no live entity holds, including one never spawned or already
    /// committed, is a harmless no-op; flagging twice is, too.
    pub fn delete_by_id(&mut self, id: usize) -> (r: Result<(), BbEcsError>)
        requires
            old(self).wf(),
        ensures
            final(self).wf(),
            final(self).names() == old(self).names(),
            final(self).capacity() == old(self).capacity(),
            final(self).next_id() == old(self).next_id(),
            final(self).last_spawned() == old(self).last_spawned(),
            final(self).reuse_queue() == old(self).reuse_queue(),
            final(self).resource_names() == old(self).resource_names(),
            final(self).resource_vals() == old(self).resource_vals(),
            forall|nm: Seq<char>| #[trigger] final(self).col_of(nm) == old(self).col_of(nm),
            old(self).is_live(id as int) ==> final(self).slots() == old(self).slots().update(
                id as int,
                old(self).slots()[id as int] | old(self).delete_mask(),
            ),
            !old(self).is_live(id as int) ==> *final(self) == *old(self),
            r is Ok,
    {
        proof {
            lemma_reserved_masks(*self);
            assert(self.names()[0] == delete_name());
            assert(self.bitmap.is_registered(delete_name()));
            assert(self.names()[1] == id_name());
            assert(self.bitmap.is_registered(id_name()));
        }
        if id >= self.bitmap.num_slots() {
            return Ok(());
        }
        let emask = match self.bitmap.name_mask(entity_id()) {
            Some(m) => m,
            None => {
                proof {
                    assert(false);
                }
                return Ok(());
            },
        };
        if self.bitmap.mask_word(id) & emask == 0 {
            return Ok(());
        }
        let _ = self.bitmap.insert(id, to_be_deleted());
        proof {
            assert(self.resources == old(self).resources);
            assert(self.resource_names() == old(self).resource_names());
            assert(self.resource_vals() == old(self).resource_vals());
            assert(self.entity_data == old(self).entity_data);
            assert(self.id_reuse_queue == old(self).id_reuse_queue);
            assert(0u64 & 2u64 == 0u64) by (bit_vector);
            assert forall|k: int|
                0 <= k < self.reuse_queue().len() implies self.slots()[self.reuse_queue()[k] as int]
                == 0 && (#[trigger] self.reuse_queue()[k]) < self.next_entity_id by {
                let q = old(self).reuse_queue()[k];
                assert(old(self).slots()[q as int] == 0);
                assert(old(self).reuse_queue()[k] < old(self).next_entity_id);
                assert(q != id);
            }
            assert forall|a: int, b: int|
                0 <= a < b < self.reuse_queue().len() implies self.reuse_queue()[a]
                != self.reuse_queue()[b] by {
                assert(old(self).reuse_queue()[a] != old(self).reuse_queue()[b]);
            }
        }
        Ok(())
    }

    /// Flag each listed entity for removal at the next commit, first to
    /// last. Ids that no live entity holds are skipped, exactly as in
    /// [`World::delete_by_id`].
    pub fn delete_ids(&mut self, ids: &[usize]) -> (r: Result<(), BbEcsError>)
        requires
            old(self).wf(),
        ensures
            final(self).wf(),
            final(self).names() == old(self).names(),
            final(self).capacity() == old(self).capacity(),
            final(self).next_id() == old(self).next_id(),
            final(self).last_spawned() == old(self).last_spawned(),
            final(self).reuse_queue() == old(self).reuse_queue(),
            final(self).resource_names() == old(self).resource_names(),
            final(self).resource_vals() == old(self).resource_vals(),
            forall|nm: Seq<char>| #[trigger] final(self).col_of(nm) == old(self).col_of(nm),
            final(self).slots() == flagged_slots(
                old(self).slots(),
                ids@,
                old(self).entity_mask(),
                old(self).delete_mask(),
            ),
            r is Ok,
    {
        proof {
            lemma_reserved_masks(*self);
        }
        let ghost orig = *self;
        let n = ids.len();
        let mut k: usize = 0;
        while k < n
            invariant
                orig.wf(),
                self.wf(),
                orig.delete_mask() == 1u64,
                orig.entity_mask() == 2u64,
                n == ids@.len(),
                k <= n,
                self.names() == orig.names(),
                self.capacity() == orig.capacity(),
                self.next_id() == orig.next_id(),
                self.last_spawned() == orig.last_spawned(),
                self.reuse_queue() == orig.reuse_queue(),
                self.resource_names() == orig.resource_names(),
                self.resource_vals() == orig.resource_vals(),
                forall|nm: Seq<char>| #[trigger] self.col_of(nm) == orig.col_of(nm),
                self.slots() == flagged_slots(orig.slots(), ids@.subrange(0, k as int), 2u64, 1u64),
            decreases n - k,
        {
            let id = ids[k];
            let ghost mid = *self;
            let _ = self.delete_by_id(id);
            proof {
                assert(mid.delete_mask() == 1u64);
                assert(mid.entity_mask() == 2u64);
                let pre = ids@.subrange(0, k as int);
                let ext = ids@.subrange(0, k + 1);
                assert(ext.drop_last() =~= pre);
                assert(ext.last() == id);
                assert(flagged_slots(orig.slots(), ext, 2u64, 1u64) == (if mid.is_live(id as int) {
                    mid.slots().update(id as int, mid.slots()[id as int] | 1u64)
                } else {
                    mid.slots()
                }));
            }
            k += 1;
        }
        proof {
            assert(ids@.subrange(0, ids@.len() as int) == ids@);
            assert(orig.entity_mask() == old(self).entity_mask());
            assert(orig.delete_mask() == old(self).delete_mask());
        }
        Ok(())
    }


    /// Commit the frame's deletions: every entity flagged for removal has
    /// its membership mask zeroed and its column slots restored to the
    /// unused sentinel, and its id joins the reuse queue, all together. Ids
    /// freed here are handed out again by later spawns, newest first.
    pub fn update(&mut self) -> (r: Result<(), BbEcsError>)
        requires
            old(self).wf(),
        ensures
            final(self).wf(),
            final(self).names() == old(self).names(),
            final(self).capacity() == old(self).capacity(),
            final(self).next_id() == old(self).next_id(),
            final(self).last_spawned() == old(self).last_spawned(),
            final(self).resource_names() == old(self).resource_names(),
            final(self).resource_vals() == old(self).resource_vals(),
            final(self).reuse_queue() == old(self).reuse_queue() + old(self).query_hits(
                seq![delete_name()],
            ),
            final(self).slots().len() == old(self).slots().len(),
            forall|i: usize|
                i < old(self).slots().len() ==> final(self).slots()[i as int] == if old(
                    self,
                ).is_flagged(i as int) {
                    0u64
                } else {
                    old(self).slots()[i as int]
                },
            forall|nm: Seq<char>, i: usize|
                old(self).is_registered(nm) && i < old(self).capacity()
                    ==> (#[trigger] final(self).col_of(nm)[i as int]) == if old(self).is_flagged(
                    i as int,
                ) {
                    ComponentData::Blank
                } else {
                    old(self).col_of(nm)[i as int]
                },
            r is Ok,
    {
        proof {
            lemma_reserved_masks(*self);
            assert(self.names()[0] == delete_name());
            assert(self.bitmap.is_registered(delete_name()));
        }
        let mut q_names: Vec<&str> = Vec::new();
        q_names.push(to_be_deleted());
        proof {
            assert(q_names@.map_values(|s: &str| s@) =~= seq![delete_name()]);
            assert(0u64 | 1u64 == 1u64) by (bit_vector);
            assert(self.bitmap.request_mask_prefix(seq![delete_name()], 0) == 0u64);
            assert(self.bitmap.request_mask_prefix(seq![delete_name()], 1) == 0u64
                | self.bitmap.mask_of(delete_name()));
            assert(self.bitmap.request_mask(seq![delete_name()]) == self.delete_mask());
        }
        let mut hits = match self.bitmap.query(q_names) {
            Ok(v) => v,
            Err(e) => {
                proof {
                    assert(false);
                }
                return Err(e);
            },
        };
        proof {
            lemma_matching_upto_props(self.slots(), self.delete_mask(), self.slots().len() as int);
            assert(forall|t: int| 0 <= t < hits@.len() ==> hits@[t] < self.capacity());
        }
        let ghost pre = *self;
        let _ = self.bitmap.delete_entities_by_index(hits.as_slice());
        let _ = self.entity_data.delete_entities_by_index(hits.as_slice());
        proof {
            lemma_reset_cols(pre.entity_data, self.entity_data, hits@);
        }
        self.id_reuse_queue.append(&mut hits);
        proof {
            assert(self.resources == old(self).resources);
            assert(self.resource_names() == old(self).resource_names());
            assert(self.resource_vals() == old(self).resource_vals());
            let flagged = pre.query_hits(seq![delete_name()]);
            assert forall|k: int|
                0 <= k < self.reuse_queue().len() implies self.slots()[self.reuse_queue()[k] as int]
                == 0 by {
                let q = self.reuse_queue()[k];
                if k < pre.reuse_queue().len() {
                    assert(pre.slots()[q as int] == 0);
                    assert(!BitMap::word_matches(0u64, 1u64)) by (bit_vector);
                } else {
                    assert(flagged.contains(q));
                }
            }
            assert forall|a: int, b: int|
                0 <= a < b < self.reuse_queue().len() implies self.reuse_queue()[a]
                != self.reuse_queue()[b] by {
                let ql = pre.reuse_queue().len();
                if a < ql && b >= ql {
                    let qa = self.reuse_queue()[a];
                    let qb = self.reuse_queue()[b];
                    assert(pre.slots()[qa as int] == 0);
                    assert(flagged.contains(qb));
                    assert(BitMap::word_matches(pre.slots()[qb as int], 1u64));
                    let w: u64 = pre.slots()[qb as int];
                    assert(w & 1u64 == 1u64 ==> w != 0u64) by (bit_vector);
                }
            }
        }
        Ok(())
    }

    /// The position of `name` in the resource table, if a value is stored.
    fn find_resource(&self, name: &str) -> (r: Option<usize>)
        requires
            self.wf(),
        ensures
            match r {
                Some(i) => self.has_resource(name@) && i == self.resource_names().index_of(name@)
                    && i < self.resource_names().len(),
                None => !self.has_resource(name@),
            },
    {
        let owned: String = name.to_owned();
        let n = self.resources.len();
        let mut i: usize = 0;
        while i < n
            invariant
                self.wf(),
                n == self.resource_names().len(),
                i <= n,
                owned@ == name@,
                forall|j: int| 0 <= j < i ==> self.resource_names()[j] != name@,
            decreases n - i,
        {
            if self.resources[i].0 == owned {
                proof {
                    assert(self.resource_names()[i as int] == name@);
                    assert(self.has_resource(name@));
                    let c = self.resource_names().index_of(name@);
                    assert(0 <= c < self.resource_names().len() && self.resource_names()[c]
                        == name@);
                    if c < i {
                        assert(self.resource_names()[c] != self.resource_names()[i as int]);
                    } else if i < c {
                        assert(self.resource_names()[i as int] != self.resource_names()[c]);
                    }
                }
                return Some(i);
            }
            i += 1;
        }
        None
    }

    /// Store `value` under `name` in the singleton resource table,
    /// overwriting any value stored there before. Resources live beside the
    /// entities and are untouched by spawns, deletions and commits.
    pub fn put_resource(&mut self, name: String, value: ComponentData)
        requires
            old(self).wf(),
        ensures
            final(self).wf(),
            put_resource_spec(*old(self), name@, value, *final(self)),
    {
        match self.find_resource(name.as_str()) {
            Some(i) => {
                let ghost nv = name@;
                proof {
                    assert(old(self).resource_names()[i as int] == nv);
                }
                self.resources.set(i, (name, value));
                proof {
                    assert(self.bitmap == old(self).bitmap);
                    assert(self.entity_data == old(self).entity_data);
                    assert(self.id_reuse_queue == old(self).id_reuse_queue);
                    assert forall|t: int|
                        0 <= t < self.reuse_queue().len() implies (#[trigger] self.reuse_queue()[t])
                        < self.next_entity_id && self.slots()[self.reuse_queue()[t] as int]
                        == 0 by {
                        assert(old(self).reuse_queue()[t] < old(self).next_entity_id);
                        assert(old(self).slots()[old(self).reuse_queue()[t] as int] == 0);
                    }
                    assert forall|a: int, b: int|
                        0 <= a < b < self.reuse_queue().len() implies self.reuse_queue()[a]
                        != self.reuse_queue()[b] by {
                        assert(old(self).reuse_queue()[a] != old(self).reuse_queue()[b]);
                    }
                    assert(self.resource_names() =~= old(self).resource_names());
                    assert(self.resource_vals() =~= old(self).resource_vals().update(
                        i as int,
                        value,
                    ));
                    assert forall|a: int, b: int|
                        0 <= a < b < self.resource_names().len() implies self.resource_names()[a]
                        != self.resource_names()[b] by {
                        assert(old(self).resource_names()[a] != old(self).resource_names()[b]);
                    }
                }
            },
            None => {
                let ghost nv = name@;
                self.resources.push((name, value));
                proof {
                    assert(self.bitmap == old(self).bitmap);
                    assert(self.entity_data == old(self).entity_data);
                    assert(self.id_reuse_queue == old(self).id_reuse_queue);
                    assert forall|t: int|
                        0 <= t < self.reuse_queue().len() implies (#[trigger] self.reuse_queue()[t])
                        < self.next_entity_id && self.slots()[self.reuse_queue()[t] as int]
                        == 0 by {
                        assert(old(self).reuse_queue()[t] < old(self).next_entity_id);
                        assert(old(self).slots()[old(self).reuse_queue()[t] as int] == 0);
                    }
                    assert forall|a: int, b: int|
                        0 <= a < b < self.reuse_queue().len() implies self.reuse_queue()[a]
                        != self.reuse_queue()[b] by {
                        assert(old(self).reuse_queue()[a] != old(self).reuse_queue()[b]);
                    }
                    assert(self.resource_names() =~= old(self).resource_names().push(nv));
                    assert(self.resource_vals() =~= old(self).resource_vals().push(value));
                    assert forall|a: int, b: int|
                        0 <= a < b < self.resource_names().len() implies self.resource_names()[a]
                        != self.resource_names()[b] by {
                        if b == self.resource_names().len() - 1 {
                            assert(!old(self).resource_names().contains(nv));
                            assert(old(self).resource_names()[a] != nv);
                        }
                    }
                }
            },
        }
    }

    /// The resource stored under `name`, or `ResourceNotFound` when nothing
    /// is stored there.
    pub fn get_resource(&self, name: &str) -> (r: Result<&ComponentData, BbEcsError>)
        requires
            self.wf(),
        ensures
            match r {
                Ok(v) => self.has_resource(name@) && *v == self.resource_of(name@),
                Err(e) => !self.has_resource(name@) && (e matches BbEcsError::ResourceNotFound(s)
                    && s@ == name@),
            },
    {
        match self.find_resource(name) {
            Some(i) => Ok(&self.resources[i].1),
            None => Err(BbEcsError::ResourceNotFound(name.to_owned())),
        }
    }

    /// How many entity slots the store has allocated so far: live entities,
    /// pending deletions and freed ids together. This is also the id the
    /// next entirely fresh spawn would receive.
    pub fn num_entities(&self) -> (r: usize)
        requires
            self.wf(),
        ensures
            r == self.slots().len(),
            r == self.next_id(),
    {
        self.bitmap.num_slots()
    }

    /// The store-wide slot capacity every value column currently has.
    pub fn entity_capacity(&self) -> (r: usize)
        ensures
            r == self.capacity(),
    {
        self.entity_data.current_capacity()
    }
}

impl Default for World {
    /// A fresh store, exactly as [`World::new`] builds it.
    fn default() -> (r: Self)
        ensures
            r.wf(),
            r.names() =~= seq![delete_name(), id_name()],
            r.slots() =~= Seq::<u64>::empty(),
            r.reuse_queue() =~= Seq::<usize>::empty(),
            r.next_id() == 0,
            r.capacity() == CAPACITY_STEP,
            r.resource_names() =~= Seq::<Seq<char>>::empty(),
            r.col_of(delete_name()) == blank_column(CAPACITY_STEP as nat),
            r.col_of(id_name()) == blank_column(CAPACITY_STEP as nat),
    {
        World::new()
    }
}

impl WorldMethods<u32> for World {
    open spec fn wf_spec(&self) -> bool {
        self.wf()
    }

    open spec fn with_component_spec(
        pre: World,
        name: Seq<char>,
        data: u32,
        post: World,
        r: Result<(), BbEcsError>,
    ) -> bool {
        attach_spec(pre, name, ComponentData::U32(data), post, r)
    }

    open spec fn add_resource_spec(pre: World, name: Seq<char>, data: u32, post: World) -> bool {
        put_resource_spec(pre, name, ComponentData::U32(data), post)
    }

    fn with_component(&mut self, name: &str, data: u32) -> (r: Result<(), BbEcsError>) {
        self.attach_component(name, ComponentData::U32(data))
    }

    fn add_resource(&mut self, name: String, data: u32) {
        self.put_resource(name, ComponentData::U32(data))
    }
}

impl WorldMethods<u64> for World {
    open spec fn wf_spec(&self) -> bool {
        self.wf()
    }

    open spec fn with_component_spec(
        pre: World,
        name: Seq<char>,
        data: u64,
        post: World,
        r: Result<(), BbEcsError>,
    ) -> bool {
        attach_spec(pre, name, ComponentData::U64(data), post, r)
    }

    open spec fn add_resource_spec(pre: World, name: Seq<char>, data: u64, post: World) -> bool {
        put_resource_spec(pre, name, ComponentData::U64(data), post)
    }

    fn with_component(&mut self, name: &str, data: u64) -> (r: Result<(), BbEcsError>) {
        self.attach_component(name, ComponentData::U64(data))
    }

    fn add_resource(&mut self, name: String, data: u64) {
        self.put_resource(name, ComponentData::U64(data))
    }
}

impl WorldMethods<usize> for World {
    open spec fn wf_spec(&self) -> bool {
        self.wf()
    }

    open spec fn with_component_spec(
        pre: World,
        name: Seq<char>,
        data: usize,
        post: World,
        r: Result<(), BbEcsError>,
    ) -> bool {
        attach_spec(pre, name, ComponentData::Usize(data), post, r)
    }

    open spec fn add_resource_spec(pre: World, name: Seq<char>, data: usize, post: World) -> bool {
        put_resource_spec(pre, name, ComponentData::Usize(data), post)
    }

    fn with_component(&mut self, name: &str, data: usize) -> (r: Result<(), BbEcsError>) {
        self.attach_component(name, ComponentData::Usize(data))
    }

    fn add_resource(&mut self, name: String, data: usize) {
        self.put_resource(name, ComponentData::Usize(data))
    }
}

impl WorldMethods<bool> for World {
    open spec fn wf_spec(&self) -> bool {
        self.wf()
    }

    open spec fn with_component_spec(
        pre: World,
        name: Seq<char>,
        data: bool,
        post: World,
        r: Result<(), BbEcsError>,
    ) -> bool {
        attach_spec(pre, name, ComponentData::Bool(data), post, r)
    }

    open spec fn add_resource_spec(pre: World, name: Seq<char>, data: bool, post: World) -> bool {
        put_resource_spec(pre, name, ComponentData::Bool(data), post)
    }

    fn with_component(&mut self, name: &str, data: bool) -> (r: Result<(), BbEcsError>) {
        self.attach_component(name, ComponentData::Bool(data))
    }

    fn add_resource(&mut self, name: String, data: bool) {
        self.put_resource(name, ComponentData::Bool(data))
    }
}

impl WorldMethods<String> for World {
    open spec fn wf_spec(&self) -> bool {
        self.wf()
    }

    open spec fn with_component_spec(
        pre: World,
        name: Seq<char>,
        data: String,
        post: World,
        r: Result<(), BbEcsError>,
    ) -> bool {
        attach_spec(pre, name, ComponentData::Marker(data), post, r)
    }

    open spec fn add_resource_spec(pre: World, name: Seq<char>, data: String, post: World) -> bool {
        put_resource_spec(pre, name, ComponentData::Marker(data), post)
    }

    fn with_component(&mut self, name: &str, data: String) -> (r: Result<(), BbEcsError>) {
        self.attach_component(name, ComponentData::Marker(data))
    }

    fn add_resource(&mut self, name: String, data: String) {
        self.put_resource(name, ComponentData::Marker(data))
    }
}

/// The reserved component types keep the first two mask bits: the deletion
/// flag always holds bit 0 of every mask word, and the identity component
/// bit 1, whatever else is registered.
pub proof fn lemma_reserved_masks(w: World)
    requires
        w.wf(),
    ensures
        w.delete_mask() == 1u64,
        w.entity_mask() == 2u64,
        w.mask_of(delete_name()) == 1u64,
        w.mask_of(id_name()) == 2u64,
        delete_name() != id_name(),
{
    reveal_strlit("to be deleted");
    reveal_strlit("entity id");
    assert(delete_name().len() == 13);
    assert(id_name().len() == 9);
    lemma_bits_are_registration_order(w.bitmap);
    assert(w.bitmap.bit_index(w.bitmap.names()[0]) == 0);
    assert(w.bitmap.bit_index(w.bitmap.names()[1]) == 1);
    assert(1u64 << 0u64 == 1u64) by (bit_vector);
    assert(1u64 << 1u64 == 2u64) by (bit_vector);
}

/// After a store grows by one capacity block, every registered column is the
/// old one padded with one block of unused slots; without growth nothing
/// moves.
proof fn lemma_grow_cols(pre: EntityData, post: EntityData, grew: bool)
    requires
        pre.wf(),
        post.names() == pre.names(),
        grew ==> forall|c: int|
            0 <= c < pre.cols().len() ==> #[trigger] post.cols()[c] == pre.cols()[c]
                + blank_column(CAPACITY_STEP as nat),
        !grew ==> post == pre,
    ensures
        forall|nm: Seq<char>|
            pre.is_registered(nm) ==> #[trigger] post.col_of(nm) == grown_column(
                pre.col_of(nm),
                grew,
            ),
{
    assert forall|nm: Seq<char>|
        pre.is_registered(nm) implies #[trigger] post.col_of(nm) == grown_column(
        pre.col_of(nm),
        grew,
    ) by {
        let c = pre.col_index(nm);
        assert(0 <= c < pre.names().len() && pre.names()[c] == nm);
        if grew {
            assert(post.cols()[c] == pre.cols()[c] + blank_column(CAPACITY_STEP as nat));
        }
    }
}

/// After a store resets a set of slots, every registered column holds the
/// unused sentinel there and its old values everywhere else.
proof fn lemma_reset_cols(pre: EntityData, post: EntityData, idxs: Seq<usize>)
    requires
        pre.wf(),
        post.names() == pre.names(),
        post.cols().len() == pre.cols().len(),
        forall|c: int, i: usize|
            0 <= c < pre.cols().len() && i < pre.capacity() ==> (#[trigger] post.cols()[c][i as int])
                == if idxs.contains(i) {
                ComponentData::Blank
            } else {
                pre.cols()[c][i as int]
            },
    ensures
        forall|nm: Seq<char>, i: usize|
            pre.is_registered(nm) && i < pre.capacity() ==> (#[trigger] post.col_of(nm)[i as int])
                == if idxs.contains(i) {
                ComponentData::Blank
            } else {
                pre.col_of(nm)[i as int]
            },
{
    assert forall|nm: Seq<char>, i: usize|
        pre.is_registered(nm) && i < pre.capacity() implies (#[trigger] post.col_of(nm)[i as int])
        == if idxs.contains(i) {
        ComponentData::Blank
    } else {
        pre.col_of(nm)[i as int]
    } by {
        let c = pre.col_index(nm);
        assert(0 <= c < pre.names().len() && pre.names()[c] == nm);
        assert(post.cols()[c][i as int] == if idxs.contains(i) {
            ComponentData::Blank
        } else {
            pre.cols()[c][i as int]
        });
    }
}

/// After one column of a store is overwritten at one slot, that column view
/// is the old one updated there and every other registered column is
/// untouched.
proof fn lemma_col_updates(
    pre: EntityData,
    post: EntityData,
    name: Seq<char>,
    index: int,
    data: ComponentData,
)
    requires
        pre.wf(),
        pre.is_registered(name),
        post.names() == pre.names(),
        post.cols() == pre.cols().update(
            pre.col_index(name),
            pre.col_of(name).update(index, data),
        ),
    ensures
        forall|nm: Seq<char>|
            pre.is_registered(nm) && nm != name ==> #[trigger] post.col_of(nm) == pre.col_of(nm),
        post.col_of(name) == pre.col_of(name).update(index, data),
{
    let ci = pre.col_index(name);
    assert(0 <= ci < pre.names().len() && pre.names()[ci] == name);
    assert forall|nm: Seq<char>|
        pre.is_registered(nm) && nm != name implies #[trigger] post.col_of(nm) == pre.col_of(
        nm,
    ) by {
        let c = pre.col_index(nm);
        assert(0 <= c < pre.names().len() && pre.names()[c] == nm);
        let c2 = post.col_index(nm);
        assert(0 <= c2 < post.names().len() && post.names()[c2] == nm);
        if c < c2 {
            assert(pre.names()[c] != pre.names()[c2]);
        } else if c2 < c {
            assert(pre.names()[c2] != pre.names()[c]);
        }
        assert(c == c2);
        assert(c != ci);
    }
    let c2 = post.col_index(name);
    assert(0 <= c2 < post.names().len() && post.names()[c2] == name);
    if ci < c2 {
        assert(pre.names()[ci] != pre.names()[c2]);
    } else if c2 < ci {
        assert(pre.names()[c2] != pre.names()[ci]);
    }
    assert(c2 == ci);
}

/// Spawning `n` entities into a fresh store, with no deletions in between,
/// hands out exactly the distinct ids `0` through `n - 1`, in order. Each
/// spawn performs one `alloc_step`, so a fresh run's ids are
/// `fresh_alloc_ids(n)`.
pub proof fn lemma_fresh_spawn_ids(n: nat)
    ensures
        fresh_alloc_ids(n).len() == n,
        forall|k: int| 0 <= k < n ==> fresh_alloc_ids(n)[k] == k,
    decreases n,
{
    if n > 0 {
        lemma_fresh_spawn_ids((n - 1) as nat);
    }
}

/// An id waiting for reuse never belongs to a live entity, so handing it out
/// again can never alias one.
pub proof fn lemma_reused_id_not_live(w: World)
    requires
        w.wf(),
        w.reuse_queue().len() > 0,
    ensures
        !w.is_live(w.spawn_id() as int),
{
    let q = w.spawn_id();
    assert(w.slots()[q as int] == 0);
    let em = w.entity_mask();
    assert(0u64 & em == 0) by (bit_vector);
}

/// Flagging preserves the number of slots.
proof fn lemma_flagged_slots_len(slots: Seq<u64>, ids: Seq<usize>, emask: u64, dmask: u64)
    ensures
        flagged_slots(slots, ids, emask, dmask).len() == slots.len(),
    decreases ids.len(),
{
    if ids.len() > 0 {
        lemma_flagged_slots_len(slots, ids.drop_last(), emask, dmask);
    }
}

/// Flagging slots with a bit outside the match mask changes no query answer.
proof fn lemma_flagged_matching(
    slots: Seq<u64>,
    ids: Seq<usize>,
    emask: u64,
    dmask: u64,
    m: u64,
    n: int,
)
    requires
        dmask & m == 0,
        0 <= n <= slots.len(),
    ensures
        flagged_slots(slots, ids, emask, dmask).len() == slots.len(),
        BitMap::matching_upto(flagged_slots(slots, ids, emask, dmask), m, n)
            == BitMap::matching_upto(slots, m, n),
    decreases ids.len(),
{
    lemma_flagged_slots_len(slots, ids, emask, dmask);
    if ids.len() > 0 {
        lemma_flagged_matching(slots, ids.drop_last(), emask, dmask, m, n);
        lemma_flagged_slots_len(slots, ids.drop_last(), emask, dmask);
        let s1 = flagged_slots(slots, ids.drop_last(), emask, dmask);
        let id = ids.last();
        if id < s1.len() && s1[id as int] & emask != 0 {
            crate::bitmap::lemma_matching_upto_or_disjoint(s1, id, dmask, m, n);
        }
    }
}

/// Entities flagged for deletion keep answering every query that does not
/// ask for the deletion flag itself, until the next commit: flagging is
/// invisible to queries.
pub proof fn lemma_pending_deletions_still_answer(
    pre: World,
    post: World,
    ids: Seq<usize>,
    names: Seq<Seq<char>>,
)
    requires
        pre.wf(),
        post.names() == pre.names(),
        post.slots() == flagged_slots(pre.slots(), ids, pre.entity_mask(), pre.delete_mask()),
        forall|j: int|
            0 <= j < names.len() ==> pre.is_registered(#[trigger] names[j]) && names[j]
                != delete_name(),
    ensures
        post.query_hits(names) == pre.query_hits(names),
{
    assert(pre.names()[0] == delete_name());
    assert(pre.bitmap.is_registered(delete_name()));
    crate::bitmap::lemma_request_mask_avoids(pre.bitmap, names, delete_name(), names.len() as int);
    crate::bitmap::lemma_request_mask_same_names(pre.bitmap, post.bitmap, names, names.len() as int);
    let m = pre.bitmap.request_mask(names);
    lemma_flagged_matching(
        pre.slots(),
        ids,
        pre.entity_mask(),
        pre.delete_mask(),
        m,
        pre.slots().len() as int,
    );
}

/// After a commit, the entities that were flagged for deletion answer no
/// query for registered names any more: their cleared mask words match no
/// nonempty request.
pub proof fn lemma_commit_excludes_deleted(pre: World, post: World, names: Seq<Seq<char>>)
    requires
        pre.wf(),
        pre.slots().len() <= usize::MAX,
        post.names() == pre.names(),
        post.slots().len() == pre.slots().len(),
        forall|i: usize|
            i < pre.slots().len() ==> post.slots()[i as int] == (if pre.is_flagged(i as int) {
                0u64
            } else {
                pre.slots()[i as int]
            }),
        names.len() > 0,
        forall|j: int| 0 <= j < names.len() ==> pre.is_registered(#[trigger] names[j]),
    ensures
        forall|i: usize| pre.is_flagged(i as int) ==> !post.query_hits(names).contains(i),
{
    let n = post.slots().len() as int;
    crate::bitmap::lemma_request_mask_same_names(pre.bitmap, post.bitmap, names, names.len() as int);
    crate::bitmap::lemma_request_mask_nonzero(pre.bitmap, names);
    let m = post.bitmap.request_mask(names);
    lemma_matching_upto_props(post.slots(), m, n);
    assert forall|i: usize| pre.is_flagged(i as int) implies !post.query_hits(names).contains(
        i,
    ) by {
        if post.query_hits(names).contains(i) {
            assert(BitMap::word_matches(post.slots()[i as int], m));
            assert(post.slots()[i as int] == 0);
            assert(0u64 & m == 0u64) by (bit_vector);
            assert(m == 0);
        }
    }
}

/// A query for a single name whose membership bit exactly one slot carries
/// returns exactly that slot.
pub proof fn lemma_query_single_match(w: World, name: Seq<char>, s: usize)
    requires
        w.wf(),
        w.slots().len() <= usize::MAX,
        w.is_registered(name),
        s < w.slots().len(),
        forall|i: int|
            0 <= i < w.slots().len() ==> ((#[trigger] w.slots()[i]) & w.mask_of(name) == w.mask_of(
                name,
            ) <==> i == s),
    ensures
        w.query_hits(seq![name]) =~= seq![s],
{
    let mo = w.mask_of(name);
    assert(w.bitmap.request_mask_prefix(seq![name], 0) == 0u64);
    assert(w.bitmap.request_mask_prefix(seq![name], 1) == 0u64 | mo);
    assert(0u64 | mo == mo) by (bit_vector);
    let n = w.slots().len() as int;
    lemma_matching_upto_props(w.slots(), mo, n);
    let hits = w.query_hits(seq![name]);
    assert(BitMap::word_matches(w.slots()[s as int], mo));
    assert(hits.contains(s));
    assert(hits.len() >= 1);
    assert forall|k: int| 0 <= k < hits.len() implies hits[k] == s by {
        assert(BitMap::word_matches(w.slots()[hits[k] as int], mo));
    }
    if hits.len() >= 2 {
        assert(hits[0] == s && hits[1] == s);
        assert(hits[0] < hits[1]);
    }
}

/// Growing the store past its capacity pads every column at its far end, so
/// the value an existing entity already holds in any column survives the
/// growth untouched.
pub proof fn lemma_growth_preserves_components(col: Seq<ComponentData>, grew: bool, i: int)
    requires
        0 <= i < col.len(),
    ensures
        grown_column(col, grew)[i] == col[i],
{
}

/// A request for one name matches against exactly that name's bit.
pub proof fn lemma_request_mask_single(w: World, name: Seq<char>)
    ensures
        w.request_mask(seq![name]) == w.mask_of(name),
{
    assert(w.bitmap.request_mask_prefix(seq![name], 0) == 0u64);
    assert(w.bitmap.request_mask_prefix(seq![name], 1) == 0u64 | w.bitmap.mask_of(name));
    let m = w.mask_of(name);
    assert(0u64 | m == m) by (bit_vector);
}

/// Masks are a function of the registered names alone: two stores with the
/// same registrations agree on every name's bit and on every request's
/// combined mask, whatever their entities hold.
pub proof fn lemma_masks_depend_on_names(w1: World, w2: World, name: Seq<char>, names: Seq<
    Seq<char>,
>)
    requires
        w1.names() == w2.names(),
    ensures
        w1.mask_of(name) == w2.mask_of(name),
        w1.entity_mask() == w2.entity_mask(),
        w1.delete_mask() == w2.delete_mask(),
        w1.request_mask(names) == w2.request_mask(names),
{
    crate::bitmap::lemma_request_mask_same_names(w1.bitmap, w2.bitmap, names, names.len() as int);
}

/// What a query's hit list holds: exactly the slots whose mask words carry
/// every bit of the request's combined mask, each once, in ascending order.
pub proof fn lemma_query_hits_props(w: World, names: Seq<Seq<char>>)
    requires
        w.slots().len() <= usize::MAX,
    ensures
        forall|k: int|
            0 <= k < w.query_hits(names).len() ==> (#[trigger] w.query_hits(names)[k])
                < w.slots().len() && BitMap::word_matches(
                w.slots()[w.query_hits(names)[k] as int],
                w.request_mask(names),
            ),
        forall|a: int, b: int|
            0 <= a < b < w.query_hits(names).len() ==> w.query_hits(names)[a] < w.query_hits(
                names,
            )[b],
        forall|i: usize|
            i < w.slots().len() && BitMap::word_matches(w.slots()[i as int], w.request_mask(names))
                ==> w.query_hits(names).contains(i),
        forall|i: usize|
            w.query_hits(names).contains(i) ==> i < w.slots().len() && BitMap::word_matches(
                w.slots()[i as int],
                w.request_mask(names),
            ),
{
    lemma_matching_upto_props(w.slots(), w.bitmap.request_mask(names), w.slots().len() as int);
}

/// Every registered name's bit is its registration position: the name
/// registered `i`-th matches against the mask word `1 << i`.
pub proof fn lemma_masks_follow_registration_order(w: World)
    requires
        w.wf(),
    ensures
        forall|i: int|
            0 <= i < w.names().len() ==> #[trigger] w.mask_of(w.names()[i]) == (1u64 << (
            i as u64)),
{
    lemma_bits_are_registration_order(w.bitmap);
}

} // verus!
