use std::any::TypeId;
use std::collections::HashMap;

use vstd::prelude::*;

use crate::bundle::keys_after;
use crate::component::id_of;
use crate::component::lemma_id_of_position;
use crate::component::Component;
use crate::component::ComponentId;
use crate::entity::Entity;
use crate::storage::downcast_ref;
use crate::storage::lookup;
use crate::storage::with_overwrite;
use crate::storage::Table;
use crate::storage::Tagged;
use crate::world::lemma_with_buckets_twice;
use crate::world::with_buckets;
use crate::world::World;

verus! {

broadcast use vstd::std_specs::hash::group_hash_axioms;

/// One leaf of a query shape: the entity handle itself, or a component type
/// read or written.
#[derive(Debug)]
pub enum Access {
    Entity,
    Read(TypeId),
    Write(TypeId),
}

/// A query shape: its leaves, in order.
pub struct Query {
    leaves: Vec<Access>,
}

/// The component types that a query shape names, in order.
pub open spec fn access_kinds(leaves: Seq<Access>) -> Seq<TypeId>
    decreases leaves.len(),
{
    if leaves.len() == 0 {
        Seq::empty()
    } else {
        let front = access_kinds(leaves.drop_last());
        match leaves.last() {
            Access::Entity => front,
            Access::Read(k) => front.push(k),
            Access::Write(k) => front.push(k),
        }
    }
}

impl Query {
    pub closed spec fn view(&self) -> Seq<Access> {
        self.leaves@
    }

    pub fn new() -> (r: Query)
        ensures
            r@ == Seq::<Access>::empty(),
    {
        Query { leaves: Vec::new() }
    }

    /// The shape with one more leaf, that yields the entity handle.
    pub fn entity(self) -> (r: Query)
        ensures
            r@ == self@.push(Access::Entity),
    {
        let mut leaves = self.leaves;
        leaves.push(Access::Entity);
        Query { leaves }
    }

    /// The shape with one more leaf, that reads a component of type `kind`.
    pub fn read(self, kind: TypeId) -> (r: Query)
        ensures
            r@ == self@.push(Access::Read(kind)),
    {
        let mut leaves = self.leaves;
        leaves.push(Access::Read(kind));
        Query { leaves }
    }

    /// The shape with one more leaf, that writes a component of type `kind`.
    pub fn write(self, kind: TypeId) -> (r: Query)
        ensures
            r@ == self@.push(Access::Write(kind)),
    {
        let mut leaves = self.leaves;
        leaves.push(Access::Write(kind));
        Query { leaves }
    }

    pub fn len(&self) -> (r: usize)
        ensures
            r == self@.len(),
    {
        self.leaves.len()
    }
}

/// A leaf whose component type has been resolved to its id.
#[derive(Debug)]
pub enum Resolved {
    Entity,
    Read(TypeId, ComponentId),
    Write(TypeId, ComponentId),
}

/// The resolved form of a leaf, against the registry `keys`.
pub open spec fn resolve(leaf: Access, keys: Seq<TypeId>) -> Resolved {
    match leaf {
        Access::Entity => Resolved::Entity,
        Access::Read(k) => Resolved::Read(k, ComponentId(id_of(keys, k) as usize)),
        Access::Write(k) => Resolved::Write(k, ComponentId(id_of(keys, k) as usize)),
    }
}

/// The result of one leaf for one entity.
#[derive(Clone, Copy, Debug, PartialEq, Eq)]
pub enum Item<V> {
    Entity(Entity),
    Component(Option<V>),
}

/// A fetch that cannot be granted.
#[derive(Clone, Copy, Debug, PartialEq, Eq)]
pub enum QueryError {
    /// A written slot is also reached by another leaf of the same fetch.
    Conflict,
}

/// What a leaf yields for entity `e` in table `t`.
pub open spec fn fetch_leaf<V>(leaf: Resolved, t: Table<V>, e: Entity) -> Item<V> {
    match leaf {
        Resolved::Entity => Item::Entity(e),
        Resolved::Read(k, c) => Item::Component(lookup(t, c.0, e.0, k)),
        Resolved::Write(k, c) => Item::Component(lookup(t, c.0, e.0, k)),
    }
}

/// What every leaf yields for entity `e`, in order.
pub open spec fn fetched<V>(state: Seq<Resolved>, t: Table<V>, e: Entity) -> Seq<Item<V>> {
    Seq::new(state.len(), |i: int| fetch_leaf(state[i], t, e))
}

/// The component id a leaf reaches, if any.
pub open spec fn leaf_id(leaf: Resolved) -> Option<ComponentId> {
    match leaf {
        Resolved::Entity => None,
        Resolved::Read(_, c) => Some(c),
        Resolved::Write(_, c) => Some(c),
    }
}

/// Leaf `i` writes a slot of entity `e` that leaf `j` reaches too.
pub open spec fn conflict_pair<V>(state: Seq<Resolved>, t: Table<V>, e: usize, i: int, j: int) -> bool {
    &&& 0 <= i < state.len()
    &&& 0 <= j < state.len()
    &&& i != j
    &&& state[i] is Write
    &&& leaf_id(state[j]) == leaf_id(state[i])
    &&& t.contains_key(state[i]->Write_1.0)
    &&& t[state[i]->Write_1.0].contains_key(e)
}

/// Some written slot of entity `e` is reached by two leaves.
pub open spec fn conflict<V>(state: Seq<Resolved>, t: Table<V>, e: usize) -> bool {
    exists|i: int, j: int| conflict_pair(state, t, e, i, j)
}

/// The table after each written leaf stores its item for entity `e`; leaves
/// `0..n` are applied, in order.
pub open spec fn written<V>(t: Table<V>, state: Seq<Resolved>, items: Seq<Item<V>>, e: usize, n: nat) -> Table<V>
    decreases n,
{
    if n == 0 {
        t
    } else {
        let prev = written(t, state, items, e, (n - 1) as nat);
        let i = n - 1;
        match (state[i], items[i]) {
            (Resolved::Write(k, c), Item::Component(Some(v))) => with_overwrite(prev, c.0, e, k, v),
            _ => prev,
        }
    }
}

/// The buckets that one fetch reads from.
pub struct ReadFetch<'a, V> {
    storage: Option<&'a HashMap<usize, Tagged<V>>>,
}

/// The fetch of a leaf matches the table: it holds the bucket of the leaf's id,
/// if the bucket exists.
pub closed spec fn fetch_matches<V>(f: ReadFetch<V>, leaf: Resolved, t: Table<V>) -> bool {
    match leaf_id(leaf) {
        Some(c) => {
            &&& f.storage.is_some() == t.contains_key(c.0)
            &&& f.storage.is_some() ==> f.storage.unwrap()@ == t[c.0]
        },
        None => true,
    }
}

/// What a leaf yields for entity `e` from its fetch.
pub closed spec fn fetch_from<V>(f: ReadFetch<V>, leaf: Resolved, e: Entity) -> Item<V> {
    match leaf {
        Resolved::Entity => Item::Entity(e),
        Resolved::Read(k, _) => Item::Component(slot_from(f, k, e)),
        Resolved::Write(k, _) => Item::Component(slot_from(f, k, e)),
    }
}

pub closed spec fn slot_from<V>(f: ReadFetch<V>, kind: TypeId, e: Entity) -> Option<V> {
    match f.storage {
        Some(b) => if b@.contains_key(e.0) && b@[e.0].kind == kind {
            Some(b@[e.0].value)
        } else {
            None
        },
        None => None,
    }
}

/// Reads the entity's slot in the fetched bucket as type `kind`.
fn read_slot<'w, V: Component>(f: &ReadFetch<'w, V>, kind: &TypeId, entity: Entity) -> (r: Option<V>)
    ensures
        r == slot_from(*f, *kind, entity),
{
    match f.storage {
        Some(storage) => match storage.get(&entity.0) {
            Some(cell) => match downcast_ref(cell, kind) {
                Some(v) => Some(*v),
                None => None,
            },
            None => None,
        },
        None => None,
    }
}

/// The result of one leaf for the entity, read through its fetch.
pub fn fetch<'w, V: Component>(f: &ReadFetch<'w, V>, leaf: &Resolved, entity: Entity) -> (r: Item<V>)
    ensures
        r == fetch_from(*f, *leaf, entity),
{
    match leaf {
        Resolved::Entity => Item::Entity(entity),
        Resolved::Read(k, _) => Item::Component(read_slot(f, k, entity)),
        Resolved::Write(k, _) => Item::Component(read_slot(f, k, entity)),
    }
}

/// A fetch that matches the table yields what the table holds.
proof fn lemma_fetch_from<V>(f: ReadFetch<V>, leaf: Resolved, t: Table<V>, e: Entity)
    requires
        fetch_matches(f, leaf, t),
    ensures
        fetch_from(f, leaf, e) == fetch_leaf(leaf, t, e),
{
}

/// A query resolved against a world: the component ids of its leaves are cached.
pub struct QueryState {
    pub fetch_state: Vec<Resolved>,
}

impl QueryState {
    pub closed spec fn view(&self) -> Seq<Resolved> {
        self.fetch_state@
    }

    /// Resolves the query shape against the world, registering each component
    /// type it names (left to right) that the world has not met yet.
    pub fn new<V: Component>(world: &mut World<V>, query: &Query) -> (r: QueryState)
        requires
            old(world).wf(),
            old(world).keys().len() + query@.len() < usize::MAX,
        ensures
            final(world).wf(),
            final(world).keys() == keys_after(old(world).keys(), access_kinds(query@)),
            final(world).keys().len() <= old(world).keys().len() + query@.len(),
            final(world).table() == with_buckets(
                old(world).table(),
                old(world).keys().len() as int,
                final(world).keys().len() as int,
            ),
            final(world).entities() == old(world).entities(),
            final(world).index() == old(world).index(),
            r@ == Seq::new(query@.len(), |i: int| resolve(query@[i], final(world).keys())),
    {
        let ghost keys0 = world.keys();
        let ghost t0 = world.table();
        let mut fetch_state: Vec<Resolved> = Vec::new();
        let mut i: usize = 0;
        while i < query.leaves.len()
            invariant
                0 <= i <= query@.len(),
                world.wf(),
                keys0.len() + query@.len() < usize::MAX,
                world.keys().len() <= keys0.len() + i,
                keys0.len() <= world.keys().len(),
                world.keys() == keys_after(keys0, access_kinds(query@.subrange(0, i as int))),
                world.table() == with_buckets(t0, keys0.len() as int, world.keys().len() as int),
                world.entities() == old(world).entities(),
                world.index() == old(world).index(),
                keys0 == old(world).keys(),
                t0 == old(world).table(),
                fetch_state@.len() == i,
                forall|j: int|
                    0 <= j < i ==> match (#[trigger] fetch_state@[j], query@[j]) {
                        (Resolved::Entity, Access::Entity) => true,
                        (Resolved::Read(k, c), Access::Read(q)) => k == q && c.0
                            < world.keys().len() && world.keys()[c.0 as int] == k,
                        (Resolved::Write(k, c), Access::Write(q)) => k == q && c.0
                            < world.keys().len() && world.keys()[c.0 as int] == k,
                        _ => false,
                    },
            decreases query@.len() - i,
        {
            let ghost keys_before = world.keys();
            let ghost prefix = query@.subrange(0, i as int);
            let ghost next = query@.subrange(0, i + 1);
            proof {
                assert(next.drop_last() =~= prefix);
            }
            let leaf = match &query.leaves[i] {
                Access::Entity => {
                    proof {
                        assert(access_kinds(next) =~= access_kinds(prefix));
                    }
                    Resolved::Entity
                },
                Access::Read(k) => {
                    let c = world.init_component(*k);
                    proof {
                        assert(access_kinds(next) =~= access_kinds(prefix).push(*k));
                        assert(access_kinds(next).drop_last() =~= access_kinds(prefix));
                        lemma_with_buckets_twice(
                            t0,
                            keys0.len() as int,
                            keys_before.len() as int,
                            world.keys().len() as int,
                        );
                    }
                    Resolved::Read(*k, c)
                },
                Access::Write(k) => {
                    let c = world.init_component(*k);
                    proof {
                        assert(access_kinds(next) =~= access_kinds(prefix).push(*k));
                        assert(access_kinds(next).drop_last() =~= access_kinds(prefix));
                        lemma_with_buckets_twice(
                            t0,
                            keys0.len() as int,
                            keys_before.len() as int,
                            world.keys().len() as int,
                        );
                    }
                    Resolved::Write(*k, c)
                },
            };
            proof {
                let keys = world.keys();
                world.lemma_wf();
                if keys.len() > keys_before.len() {
                    assert(keys[keys.len() - 1] == keys[keys.len() - 1]);
                }
                assert(keys.len() >= keys_before.len());
                assert forall|j: int| 0 <= j < keys_before.len() implies keys[j] == keys_before[j] by {
                }
                match leaf {
                    Resolved::Read(k, c) => {
                        if !keys_before.contains(k) {
                            assert(keys[keys.len() - 1] == k);
                        }
                        assert(keys.contains(k));
                    },
                    Resolved::Write(k, c) => {
                        if !keys_before.contains(k) {
                            assert(keys[keys.len() - 1] == k);
                        }
                        assert(keys.contains(k));
                    },
                    Resolved::Entity => {},
                }
            }
            fetch_state.push(leaf);
            i += 1;
        }
        proof {
            let keys = world.keys();
            world.lemma_wf();
            assert(query@.subrange(0, i as int) =~= query@);
            assert forall|j: int| 0 <= j < query@.len() implies fetch_state@[j] == resolve(
                query@[j],
                keys,
            ) by {
                match (fetch_state@[j], query@[j]) {
                    (Resolved::Read(k, c), Access::Read(q)) => {
                        lemma_id_of_position(keys, c.0 as int);
                    },
                    (Resolved::Write(k, c), Access::Write(q)) => {
                        lemma_id_of_position(keys, c.0 as int);
                    },
                    _ => {},
                }
            }
            assert(fetch_state@ =~= Seq::new(query@.len(), |j: int| resolve(query@[j], keys)));
        }
        QueryState { fetch_state }
    }

    /// Looks up, for each leaf, the bucket of its component id in the world.
    pub fn init_fetch<'w, V: Component>(&self, world: &'w World<V>) -> (r: Vec<ReadFetch<'w, V>>)
        ensures
            r@.len() == self@.len(),
            forall|i: int| 0 <= i < r@.len() ==> fetch_matches(#[trigger] r@[i], self@[i], world.table()),
    {
        let mut fetches: Vec<ReadFetch<'w, V>> = Vec::new();
        let mut i: usize = 0;
        while i < self.fetch_state.len()
            invariant
                0 <= i <= self@.len(),
                fetches@.len() == i,
                forall|j: int| 0 <= j < i ==> fetch_matches(#[trigger] fetches@[j], self@[j], world.table()),
            decreases self@.len() - i,
        {
            let f = match &self.fetch_state[i] {
                Resolved::Entity => ReadFetch { storage: None },
                Resolved::Read(_, c) => ReadFetch { storage: world.bucket(*c) },
                Resolved::Write(_, c) => ReadFetch { storage: world.bucket(*c) },
            };
            fetches.push(f);
            i += 1;
        }
        fetches
    }

    /// Whether some written slot of the entity is reached by two leaves.
    fn conflicting<'w, V: Component>(&self, fetches: &Vec<ReadFetch<'w, V>>, entity: Entity, Ghost(t): Ghost<Table<V>>) -> (r: bool)
        requires
            fetches@.len() == self@.len(),
            forall|i: int| 0 <= i < fetches@.len() ==> fetch_matches(#[trigger] fetches@[i], self@[i], t),
        ensures
            r == conflict(self@, t, entity.0),
    {
        let n = self.fetch_state.len();
        let mut i: usize = 0;
        while i < n
            invariant
                0 <= i <= n,
                n == self@.len(),
                fetches@.len() == n,
                forall|k: int| 0 <= k < n ==> fetch_matches(#[trigger] fetches@[k], self@[k], t),
                forall|i2: int, j2: int| 0 <= i2 < i ==> !conflict_pair(self@, t, entity.0, i2, j2),
            decreases n - i,
        {
            match &self.fetch_state[i] {
                Resolved::Write(_, c) => {
                    let present = match fetches[i].storage {
                        Some(storage) => storage.contains_key(&entity.0),
                        None => false,
                    };
                    if present {
                        let mut j: usize = 0;
                        while j < n
                            invariant
                                0 <= j <= n,
                                i < n,
                                n == self@.len(),
                                self@[i as int] is Write,
                                self@[i as int]->Write_1 == *c,
                                t.contains_key(c.0) && t[c.0].contains_key(entity.0),
                                forall|j2: int| 0 <= j2 < j ==> !conflict_pair(self@, t, entity.0, i as int, j2),
                            decreases n - j,
                        {
                            let same = match &self.fetch_state[j] {
                                Resolved::Entity => false,
                                Resolved::Read(_, c2) => *c2 == *c,
                                Resolved::Write(_, c2) => *c2 == *c,
                            };
                            if j != i && same {
                                assert(conflict_pair(self@, t, entity.0, i as int, j as int));
                                return true;
                            }
                            j += 1;
                        }
                    }
                },
                _ => {},
            }
            i += 1;
        }
        false
    }

    /// Fetches every leaf of the query for one entity. A leaf whose component
    /// is missing yields `None`; the whole fetch fails only where a written
    /// slot is also reached by another leaf.
    pub fn get<'w, V: Component>(&self, world: &'w World<V>, entity: Entity) -> (r: Result<Vec<Item<V>>, QueryError>)
        ensures
            r is Err <==> conflict(self@, world.table(), entity.0),
            r is Ok ==> r->Ok_0@ == fetched(self@, world.table(), entity),
    {
        let fetches = self.init_fetch(world);
        if self.conflicting(&fetches, entity, Ghost(world.table())) {
            return Err(QueryError::Conflict);
        }
        let mut items: Vec<Item<V>> = Vec::new();
        let mut i: usize = 0;
        while i < self.fetch_state.len()
            invariant
                0 <= i <= self@.len(),
                fetches@.len() == self@.len(),
                forall|k: int| 0 <= k < self@.len() ==> fetch_matches(#[trigger] fetches@[k], self@[k], world.table()),
                items@.len() == i,
                forall|j: int| 0 <= j < i ==> #[trigger] items@[j] == fetch_leaf(self@[j], world.table(), entity),
            decreases self@.len() - i,
        {
            let item = fetch(&fetches[i], &self.fetch_state[i], entity);
            proof {
                lemma_fetch_from(fetches@[i as int], self@[i as int], world.table(), entity);
            }
            items.push(item);
            i += 1;
        }
        assert(items@ =~= fetched(self@, world.table(), entity));
        Ok(items)
    }

    /// Stores the items of the written leaves back into the entity's slots:
    /// each written leaf whose item holds a value overwrites the slot, where
    /// the slot exists and holds that leaf's type.
    pub fn set<V: Component>(&self, world: &mut World<V>, entity: Entity, items: &Vec<Item<V>>)
        requires
            old(world).wf(),
        ensures
            final(world).wf(),
            final(world).keys() == old(world).keys(),
            final(world).entities() == old(world).entities(),
            final(world).index() == old(world).index(),
            final(world).table() == written(
                old(world).table(),
                self@,
                items@,
                entity.0,
                if self@.len() <= items@.len() { self@.len() } else { items@.len() },
            ),
    {
        let n = if self.fetch_state.len() <= items.len() {
            self.fetch_state.len()
        } else {
            items.len()
        };
        let mut i: usize = 0;
        while i < n
            invariant
                0 <= i <= n,
                n <= self@.len(),
                n <= items@.len(),
                n == (if self@.len() <= items@.len() { self@.len() } else { items@.len() }),
                world.wf(),
                world.keys() == old(world).keys(),
                world.entities() == old(world).entities(),
                world.index() == old(world).index(),
                world.table() == written(old(world).table(), self@, items@, entity.0, i as nat),
            decreases n - i,
        {
            match (&self.fetch_state[i], &items[i]) {
                (Resolved::Write(k, c), Item::Component(Some(v))) => {
                    world.overwrite(entity, *c, k, *v);
                },
                _ => {},
            }
            i += 1;
        }
    }
}

} // verus!
