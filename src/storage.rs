use std::any::TypeId;
use std::collections::HashMap;

use vstd::prelude::*;

use crate::component::same_type;
use crate::component::ComponentId;
use crate::entity::Entity;

verus! {

broadcast use vstd::std_specs::hash::group_hash_axioms;

/// A stored component value, tagged with the type it was stored as.
#[derive(Debug)]
pub struct Tagged<V> {
    pub kind: TypeId,
    pub value: V,
}

/// What a storage table holds: for each component id, the values per entity number.
pub type Table<V> = Map<usize, Map<usize, Tagged<V>>>;

/// The table once a bucket exists for component id `c`.
pub open spec fn with_bucket<V>(t: Table<V>, c: usize) -> Table<V> {
    if t.contains_key(c) {
        t
    } else {
        t.insert(c, Map::empty())
    }
}

/// The table after a value is offered to slot (`c`, `e`): an occupied slot keeps
/// its value (the first write wins), a missing bucket is created.
pub open spec fn with_value<V>(t: Table<V>, c: usize, e: usize, v: Tagged<V>) -> Table<V> {
    if t.contains_key(c) {
        if t[c].contains_key(e) {
            t
        } else {
            t.insert(c, t[c].insert(e, v))
        }
    } else {
        t.insert(c, Map::empty().insert(e, v))
    }
}

/// The value held in slot (`c`, `e`) read as type `kind`: absent when the slot
/// is empty or holds another type.
pub open spec fn lookup<V>(t: Table<V>, c: usize, e: usize, kind: TypeId) -> Option<V> {
    if t.contains_key(c) && t[c].contains_key(e) && t[c][e].kind == kind {
        Some(t[c][e].value)
    } else {
        None
    }
}

/// The table after slot (`c`, `e`) is overwritten with `v` where it holds type
/// `kind`; otherwise unchanged.
pub open spec fn with_overwrite<V>(t: Table<V>, c: usize, e: usize, kind: TypeId, v: V) -> Table<V> {
    if t.contains_key(c) && t[c].contains_key(e) && t[c][e].kind == kind {
        t.insert(c, t[c].insert(e, Tagged { kind, value: v }))
    } else {
        t
    }
}

/// Overwriting a value keeps every bucket, every slot and every tag.
pub proof fn lemma_overwrite_shape<V>(t: Table<V>, c: usize, e: usize, kind: TypeId, v: V)
    ensures
        forall|c2: usize| #[trigger] with_overwrite(t, c, e, kind, v).contains_key(c2) == t.contains_key(c2),
        forall|c2: usize, x: usize|
            t.contains_key(c2) ==> (#[trigger] with_overwrite(t, c, e, kind, v)[c2].contains_key(x)
                == t[c2].contains_key(x)),
        forall|c2: usize, x: usize|
            t.contains_key(c2) && t[c2].contains_key(x) ==> #[trigger] with_overwrite(
                t,
                c,
                e,
                kind,
                v,
            )[c2][x].kind == t[c2][x].kind,
{
}

/// Reads a stored value as type `kind`: the value where the tag matches, absent
/// otherwise.
pub fn downcast_ref<'w, V>(cell: &'w Tagged<V>, kind: &TypeId) -> (r: Option<&'w V>)
    ensures
        r.is_some() == (cell.kind == *kind),
        r.is_some() ==> *r.unwrap() == cell.value,
{
    if same_type(&cell.kind, kind) {
        Some(&cell.value)
    } else {
        None
    }
}

/// Borrows a stored value mutably as type `kind`: the value where the tag
/// matches, absent otherwise. The tag itself never changes.
pub fn downcast_mut<'w, V>(cell: &'w mut Tagged<V>, kind: &TypeId) -> (r: Option<&'w mut V>)
    ensures
        r.is_some() == (old(cell).kind == *kind),
        match r {
            Some(v) => *v == old(cell).value && *final(cell) == (Tagged {
                kind: old(cell).kind,
                value: *final(v),
            }),
            None => *final(cell) == *old(cell),
        },
{
    if same_type(&cell.kind, kind) {
        Some(&mut cell.value)
    } else {
        None
    }
}

/// The type-erased storage table: component id to (entity to tagged value).
pub struct Storages<V> {
    hashmaps: HashMap<usize, HashMap<usize, Tagged<V>>>,
}

impl<V: Copy> Storages<V> {
    pub closed spec fn view(&self) -> Table<V> {
        Map::new(|c: usize| self.hashmaps@.contains_key(c), |c: usize| self.hashmaps@[c]@)
    }

    pub fn new() -> (r: Storages<V>)
        ensures
            r.view() == Table::<V>::empty(),
    {
        let r = Storages { hashmaps: HashMap::new() };
        assert(r.view() =~= Table::<V>::empty());
        r
    }

    /// Makes sure a bucket exists for the component id.
    pub fn init_component(&mut self, component_id: ComponentId)
        ensures
            final(self).view() == with_bucket(old(self).view(), component_id.0),
    {
        let ghost before = self.view();
        if !self.hashmaps.contains_key(&component_id.0) {
            self.hashmaps.insert(component_id.0, HashMap::new());
            assert(self.view() =~= with_bucket(before, component_id.0));
        }
    }

    /// Stores a value for the entity under the component id, unless the entity
    /// already has one there.
    pub fn push_component(&mut self, entity: Entity, component_id: ComponentId, component: Tagged<V>)
        ensures
            final(self).view() == with_value(old(self).view(), component_id.0, entity.0, component),
    {
        let ghost before = self.view();
        match self.hashmaps.remove(&component_id.0) {
            Some(mut bucket) => {
                if !bucket.contains_key(&entity.0) {
                    bucket.insert(entity.0, component);
                }
                self.hashmaps.insert(component_id.0, bucket);
            },
            None => {
                let mut bucket: HashMap<usize, Tagged<V>> = HashMap::new();
                bucket.insert(entity.0, component);
                self.hashmaps.insert(component_id.0, bucket);
            },
        }
        assert(self.view() =~= with_value(before, component_id.0, entity.0, component));
    }

    /// The bucket of a component id, if it exists.
    pub fn bucket(&self, component_id: ComponentId) -> (r: Option<&HashMap<usize, Tagged<V>>>)
        ensures
            r.is_some() == self.view().contains_key(component_id.0),
            r.is_some() ==> r.unwrap()@ == self.view()[component_id.0],
    {
        self.hashmaps.get(&component_id.0)
    }

    /// Overwrites the value in slot (component id, entity) where it holds type `kind`.
    pub fn overwrite(&mut self, entity: Entity, component_id: ComponentId, kind: &TypeId, value: V)
        ensures
            final(self).view() == with_overwrite(
                old(self).view(),
                component_id.0,
                entity.0,
                *kind,
                value,
            ),
    {
        let ghost before = self.view();
        match self.hashmaps.remove(&component_id.0) {
            Some(mut bucket) => {
                match bucket.remove(&entity.0) {
                    Some(mut cell) => {
                        match downcast_mut(&mut cell, kind) {
                            Some(slot) => {
                                *slot = value;
                            },
                            None => {},
                        }
                        bucket.insert(entity.0, cell);
                    },
                    None => {},
                }
                proof {
                    let inner = before[component_id.0];
                    if inner.contains_key(entity.0) && inner[entity.0].kind == *kind {
                        assert(bucket@ =~= inner.insert(
                            entity.0,
                            Tagged { kind: *kind, value },
                        ));
                    } else {
                        assert(bucket@ =~= inner);
                    }
                }
                self.hashmaps.insert(component_id.0, bucket);
            },
            None => {},
        }
        assert(self.view() =~= with_overwrite(before, component_id.0, entity.0, *kind, value));
    }
}

} // verus!
