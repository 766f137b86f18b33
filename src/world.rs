use std::any::TypeId;
use std::collections::HashMap;

use vstd::prelude::*;

use crate::bundle::ids_of;
use crate::bundle::keys_after;
use crate::bundle::kinds_of;
use crate::bundle::lemma_keys_after;
use crate::bundle::lemma_table_after;
use crate::bundle::table_after;
use crate::bundle::Bundle;
use crate::component::id_of;
use crate::component::lemma_id_of_position;
use crate::component::registered;
use crate::component::Component;
use crate::component::ComponentId;
use crate::component::Components;
use crate::entity::Entities;
use crate::entity::Entity;
use crate::query::access_kinds;
use crate::query::resolve;
use crate::query::Query;
use crate::query::QueryState;
use crate::storage::Storages;
use crate::storage::lemma_overwrite_shape;
use crate::storage::with_overwrite;
use crate::storage::Table;
use crate::storage::Tagged;

verus! {

/// The table once buckets exist for ids `lo` up to (not including) `hi`; the new
/// buckets are empty.
pub open spec fn with_buckets<V>(t: Table<V>, lo: int, hi: int) -> Table<V> {
    Map::new(
        |c: usize| t.contains_key(c) || lo <= c < hi,
        |c: usize|
            if t.contains_key(c) {
                t[c]
            } else {
                Map::empty()
            },
    )
}

/// Adding buckets in two steps adds the same buckets as adding them at once.
pub proof fn lemma_with_buckets_twice<V>(t: Table<V>, a: int, b: int, c: int)
    requires
        a <= b <= c,
    ensures
        with_buckets(with_buckets(t, a, b), b, c) == with_buckets(t, a, c),
{
    assert(with_buckets(with_buckets(t, a, b), b, c) =~= with_buckets(t, a, c));
}

/// The runtime: the entity allocator, the component registry and the storage table.
pub struct World<V> {
    entities: Entities,
    components: Components,
    storages: Storages<V>,
}

impl<V: Component> World<V> {
    /// The entity handles issued so far, in order.
    pub closed spec fn entities(&self) -> Seq<Entity> {
        self.entities.issued()
    }

    /// The registered component types; the id of a type is its position.
    pub closed spec fn keys(&self) -> Seq<TypeId> {
        self.components@
    }

    /// The stored values: component id to (entity number to tagged value).
    pub closed spec fn table(&self) -> Table<V> {
        self.storages.view()
    }

    /// For each entity number, the ids of the components it received.
    pub closed spec fn index(&self) -> Map<usize, Seq<ComponentId>> {
        self.entities.index()
    }

    pub closed spec fn wf(&self) -> bool {
        &&& self.entities.wf()
        &&& self.components.wf()
        &&& forall|c: usize|
            #[trigger] self.table().contains_key(c) <==> c < self.keys().len()
        &&& forall|c: usize, x: usize|
            self.table().contains_key(c) && #[trigger] self.table()[c].contains_key(x) ==> {
                &&& x < self.entities().len()
                &&& self.table()[c][x].kind == self.keys()[c as int]
            }
        &&& forall|x: usize| #[trigger] self.index().contains_key(x) ==> x < self.entities().len()
    }

    /// The facts that the world's invariant gives its users.
    pub proof fn lemma_wf(&self)
        requires
            self.wf(),
        ensures
            self.keys().no_duplicates(),
            forall|i: int| 0 <= i < self.entities().len() ==> #[trigger] self.entities()[i].0 == i,
            forall|c: usize| #[trigger] self.table().contains_key(c) <==> c < self.keys().len(),
            forall|c: usize, x: usize|
                self.table().contains_key(c) && #[trigger] self.table()[c].contains_key(x) ==> {
                    &&& x < self.entities().len()
                    &&& self.table()[c][x].kind == self.keys()[c as int]
                },
    {
        self.components.lemma_wf_no_duplicates();
        self.entities.lemma_wf();
    }

    /// A world whose table keeps every bucket, slot and tag of a well-formed
    /// table is well-formed.
    proof fn lemma_wf_keep(&self, t: Table<V>)
        requires
            self.entities.wf(),
            self.components.wf(),
            forall|x: usize| #[trigger] self.index().contains_key(x) ==> x < self.entities().len(),
            forall|c: usize| #[trigger] t.contains_key(c) <==> c < self.keys().len(),
            forall|c: usize, x: usize|
                t.contains_key(c) && #[trigger] t[c].contains_key(x) ==> {
                    &&& x < self.entities().len()
                    &&& t[c][x].kind == self.keys()[c as int]
                },
            forall|c: usize| #[trigger] self.table().contains_key(c) == t.contains_key(c),
            forall|c: usize, x: usize|
                t.contains_key(c) ==> (#[trigger] self.table()[c].contains_key(x) == t[c].contains_key(x)),
            forall|c: usize, x: usize|
                t.contains_key(c) && t[c].contains_key(x) ==> #[trigger] self.table()[c][x].kind
                    == t[c][x].kind,
        ensures
            self.wf(),
    {
    }

    /// The ids of the components the entity received when it was spawned.
    pub fn components_of(&self, entity: Entity) -> (r: Option<&Vec<ComponentId>>)
        ensures
            r.is_some() == self.index().contains_key(entity.0),
            r.is_some() ==> r.unwrap()@ == self.index()[entity.0],
    {
        self.entities.components_of(entity)
    }

    /// The bucket of a component id, if the world has it.
    pub fn bucket(&self, component_id: ComponentId) -> (r: Option<&HashMap<usize, Tagged<V>>>)
        ensures
            r.is_some() == self.table().contains_key(component_id.0),
            r.is_some() ==> r.unwrap()@ == self.table()[component_id.0],
    {
        self.storages.bucket(component_id)
    }

    /// Overwrites the value in slot (component id, entity) where it holds type `kind`.
    pub fn overwrite(&mut self, entity: Entity, component_id: ComponentId, kind: &TypeId, value: V)
        requires
            old(self).wf(),
        ensures
            final(self).wf(),
            final(self).keys() == old(self).keys(),
            final(self).entities() == old(self).entities(),
            final(self).index() == old(self).index(),
            final(self).table() == with_overwrite(
                old(self).table(),
                component_id.0,
                entity.0,
                *kind,
                value,
            ),
    {
        self.storages.overwrite(entity, component_id, kind, value);
        proof {
            lemma_overwrite_shape(old(self).table(), component_id.0, entity.0, *kind, value);
            assert(self.index() == old(self).index());
            assert(forall|x: usize| #[trigger] self.index().contains_key(x) ==> old(self).index().contains_key(x));
            self.lemma_wf_keep(old(self).table());
        }
    }

    /// An empty world: no entities, no registered types, no buckets.
    pub fn new() -> (r: World<V>)
        ensures
            r.wf(),
            r.entities() == Seq::<Entity>::empty(),
            r.keys() == Seq::<TypeId>::empty(),
            r.table() == Table::<V>::empty(),
            r.index() == Map::<usize, Seq<ComponentId>>::empty(),
    {
        World { entities: Entities::new(), components: Components::new(), storages: Storages::new() }
    }

    /// Registers a component type (once) and returns its id.
    pub fn init_component(&mut self, kind: TypeId) -> (r: ComponentId)
        requires
            old(self).wf(),
            old(self).keys().len() < usize::MAX,
        ensures
            final(self).wf(),
            final(self).keys() == registered(old(self).keys(), kind),
            r.0 == id_of(final(self).keys(), kind),
            final(self).table() == with_buckets(
                old(self).table(),
                old(self).keys().len() as int,
                final(self).keys().len() as int,
            ),
            final(self).entities() == old(self).entities(),
            final(self).index() == old(self).index(),
    {
        let r = self.components.init_component(&mut self.storages, kind);
        proof {
            old(self).components.lemma_wf_no_duplicates();
            let keys = self.keys();
            let keys0 = old(self).keys();
            if !keys0.contains(kind) {
                assert(keys[keys.len() - 1] == kind);
            }
            assert(keys.contains(kind));
            assert(r.0 < keys.len());
            assert(keys.subrange(0, keys0.len() as int) =~= keys0);
            assert forall|c: usize| #[trigger] self.table().contains_key(c) <==> c < keys.len() by {
                assert(old(self).table().contains_key(c) <==> c < keys0.len());
                if c < keys.len() && c >= keys0.len() {
                    assert(keys.len() == keys0.len() + 1);
                    assert(c == keys0.len());
                    lemma_id_of_position(keys, c as int);
                }
            }
            assert forall|c: usize, x: usize|
                self.table().contains_key(c) && #[trigger] self.table()[c].contains_key(x) implies {
                &&& x < self.entities().len()
                &&& self.table()[c][x].kind == keys[c as int]
            } by {
                assert(old(self).table().contains_key(c));
                assert(old(self).table()[c].contains_key(x));
                assert(keys.subrange(0, keys0.len() as int)[c as int] == keys0[c as int]);
            }
            assert(self.table() =~= with_buckets(
                old(self).table(),
                old(self).keys().len() as int,
                keys.len() as int,
            ));
        }
        assert(self.entities.wf());
        assert(forall|x: usize| #[trigger] self.index().contains_key(x) ==> old(self).index().contains_key(x));
        r
    }

    /// Attaches the bundle's components to a new entity and returns its handle.
    /// Types are registered left to right; where the bundle holds two values of
    /// one type, the first is kept.
    pub fn spawn(&mut self, bundle: Bundle<V>) -> (r: Entity)
        requires
            old(self).wf(),
            old(self).entities().len() < usize::MAX,
            old(self).keys().len() + bundle@.len() < usize::MAX,
        ensures
            final(self).wf(),
            r.0 == old(self).entities().len(),
            forall|i: int|
                0 <= i < old(self).entities().len() ==> #[trigger] old(self).entities()[i].0 < r.0,
            final(self).entities() == old(self).entities().push(r),
            final(self).keys() == keys_after(old(self).keys(), kinds_of(bundle@)),
            final(self).keys().len() <= old(self).keys().len() + bundle@.len(),
            final(self).table() == table_after(
                old(self).table(),
                r.0,
                bundle@,
                ids_of(final(self).keys(), bundle@),
            ),
            final(self).index() == old(self).index().insert(
                r.0,
                ids_of(final(self).keys(), bundle@),
            ),
    {
        proof {
            old(self).entities.lemma_wf();
        }
        let entity = self.entities.allocate();
        let mut components_ids: Vec<ComponentId> = Vec::new();
        bundle.components_ids(entity, &mut self.components, &mut self.storages, &mut components_ids);
        proof {
            assert(components_ids@ =~= ids_of(self.keys(), bundle@));
        }
        self.entities.set_components(entity, components_ids);
        proof {
            let keys0 = old(self).keys();
            let keys = self.keys();
            let t0 = old(self).table();
            let ids = ids_of(keys, bundle@);
            old(self).components.lemma_wf_no_duplicates();
            lemma_keys_after(keys0, kinds_of(bundle@));
            lemma_table_after(t0, entity.0, bundle@, ids);
            assert(!old(self).index().contains_key(entity.0));
            assert forall|c: usize| #[trigger] self.table().contains_key(c) implies c < keys.len() by {
                if !t0.contains_key(c) {
                    let j = choose|j: int| 0 <= j < ids.len() && ids[j].0 == c;
                    assert(kinds_of(bundle@)[j] == bundle@[j].kind);
                    assert(keys.contains(bundle@[j].kind));
                }
            }
            assert forall|c: usize| c < keys.len() implies #[trigger] self.table().contains_key(c)
                by {
                if c >= keys0.len() {
                    let j = choose|j: int|
                        0 <= j < kinds_of(bundle@).len() && kinds_of(bundle@)[j] == keys[c as int];
                    lemma_id_of_position(keys, c as int);
                    assert(ids[j].0 == c);
                }
            }
            assert forall|c: usize, x: usize|
                self.table().contains_key(c) && #[trigger] self.table()[c].contains_key(x) implies {
                &&& x < self.entities().len()
                &&& self.table()[c][x].kind == keys[c as int]
            } by {
                if t0.contains_key(c) && t0[c].contains_key(x) {
                    assert(keys[c as int] == keys0[c as int]) by {
                        assert(keys.subrange(0, keys0.len() as int)[c as int] == keys0[c as int]);
                    }
                } else {
                    let j = choose|j: int|
                        0 <= j < ids.len() && ids[j].0 == c && self.table()[c][x] == bundle@[j];
                    assert(kinds_of(bundle@)[j] == bundle@[j].kind);
                    assert(keys.contains(bundle@[j].kind));
                }
            }
        }
        entity
    }

    /// Resolves a query shape against this world; see `QueryState::new`.
    pub fn query(&mut self, query: &Query) -> (r: QueryState)
        requires
            old(self).wf(),
            old(self).keys().len() + query@.len() < usize::MAX,
        ensures
            final(self).wf(),
            final(self).keys() == keys_after(old(self).keys(), access_kinds(query@)),
            final(self).keys().len() <= old(self).keys().len() + query@.len(),
            final(self).table() == with_buckets(
                old(self).table(),
                old(self).keys().len() as int,
                final(self).keys().len() as int,
            ),
            final(self).entities() == old(self).entities(),
            final(self).index() == old(self).index(),
            r@ == Seq::new(query@.len(), |i: int| resolve(query@[i], final(self).keys())),
    {
        QueryState::new(self, query)
    }
}

} // verus!
