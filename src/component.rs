use std::any::TypeId;

use rustc_hash::FxBuildHasher;
use rustc_hash::FxHashMap;
use vstd::prelude::*;

use crate::storage::with_bucket;
use crate::storage::Storages;

verus! {

/// The identity of a component type: the `TypeId` of the Rust type that the
/// component value stands for.
#[verifier::external_type_specification]
#[verifier::external_body]
pub struct ExTypeId(TypeId);

/// The hasher builder of rustc_hash's `FxHashMap`.
#[verifier::external_type_specification]
#[verifier::external_body]
pub struct ExFxBuildHasher(FxBuildHasher);

/// Relies on `TypeId`'s `PartialEq`: two type ids compare equal exactly when
/// they are the same value.
#[verifier::external_body]
pub(crate) fn same_type(a: &TypeId, b: &TypeId) -> (r: bool)
    ensures
        r == (*a == *b),
{
    *a == *b
}

/// Relies on `HashMap::get` over rustc_hash's deterministic `FxBuildHasher`
/// (and `TypeId`'s `Eq` and `Hash`): the entry stored under the key, if any.
#[verifier::external_body]
fn index_get(m: &FxHashMap<TypeId, usize>, k: &TypeId) -> (r: Option<usize>)
    ensures
        r == m@.get(*k),
{
    m.get(k).copied()
}

/// Relies on `HashMap::insert` over rustc_hash's deterministic `FxBuildHasher`
/// (and `TypeId`'s `Eq` and `Hash`): the key is mapped to the value, all other
/// entries stay.
#[verifier::external_body]
fn index_insert(m: &mut FxHashMap<TypeId, usize>, k: TypeId, v: usize)
    ensures
        final(m)@ == old(m)@.insert(k, v),
{
    m.insert(k, v);
}

/// A value that can be stored as a component: it is copied in and out of the
/// storage table.
pub trait Component: Copy {
}

/// The dense number that a world gives a component type the first time it meets it.
#[derive(Clone, Copy, Debug, PartialEq, Eq, Hash, Structural)]
pub struct ComponentId(pub usize);

/// What the registry records for each component id.
#[derive(Clone, Copy, Debug)]
pub struct ComponentInfo {
    pub id: ComponentId,
}

impl ComponentInfo {
    pub fn new(id: ComponentId) -> (r: ComponentInfo)
        ensures
            r.id == id,
    {
        ComponentInfo { id }
    }
}

/// The registry after a type is registered: a type met for the first time is
/// appended, so that its id is the number of types registered before it.
pub open spec fn registered(keys: Seq<TypeId>, kind: TypeId) -> Seq<TypeId> {
    if keys.contains(kind) {
        keys
    } else {
        keys.push(kind)
    }
}

/// The id of a registered type: its position in the order of first registration.
pub open spec fn id_of(keys: Seq<TypeId>, kind: TypeId) -> int {
    keys.index_of(kind)
}

/// In a registry without repeats, the id of the type at position `i` is `i`.
pub proof fn lemma_id_of_position(keys: Seq<TypeId>, i: int)
    requires
        keys.no_duplicates(),
        0 <= i < keys.len(),
    ensures
        id_of(keys, keys[i]) == i,
{
    assert(keys.contains(keys[i]));
}

/// The component registry: maps each type to its dense id.
pub struct Components {
    components: Vec<ComponentInfo>,
    indices: FxHashMap<TypeId, usize>,
    order: Ghost<Seq<TypeId>>,
}

impl Components {
    /// The registered types, in the order in which they were first registered.
    pub closed spec fn view(&self) -> Seq<TypeId> {
        self.order@
    }

    pub closed spec fn wf(&self) -> bool {
        &&& self.components@.len() == self.order@.len()
        &&& forall|i: int|
            0 <= i < self.components@.len() ==> #[trigger] self.components@[i].id.0 == i
        &&& self.order@.no_duplicates()
        &&& forall|k: TypeId| #[trigger]
            self.indices@.contains_key(k) <==> self.order@.contains(k)
        &&& forall|i: int|
            0 <= i < self.order@.len() ==> self.indices@[#[trigger] self.order@[i]] == i
    }

    pub proof fn lemma_wf_no_duplicates(&self)
        requires
            self.wf(),
        ensures
            self@.no_duplicates(),
    {
    }

    pub fn new() -> (r: Components)
        ensures
            r.wf(),
            r@ == Seq::<TypeId>::empty(),
    {
        Components {
            components: Vec::new(),
            indices: FxHashMap::default(),
            order: Ghost(Seq::empty()),
        }
    }

    /// Registers a type, once: the first call gives it the next free id and
    /// creates its storage bucket; later calls return the same id.
    pub fn init_component<V: Copy>(&mut self, storages: &mut Storages<V>, kind: TypeId) -> (r:
        ComponentId)
        requires
            old(self).wf(),
            old(self)@.len() < usize::MAX,
        ensures
            final(self).wf(),
            final(self)@ == registered(old(self)@, kind),
            r.0 == id_of(final(self)@, kind),
            final(storages).view() == with_bucket(old(storages).view(), r.0),
    {
        let index = match index_get(&self.indices, &kind) {
            Some(i) => {
                proof {
                    lemma_id_of_position(self.order@, i as int);
                }
                i
            },
            None => {
                let i = Components::init_component_inner(&mut self.components);
                index_insert(&mut self.indices, kind, i);
                proof {
                    let keys = self.order@.push(kind);
                    assert forall|j: int| 0 <= j < keys.len() - 1 implies keys[j] != kind by {
                        assert(old(self).order@.contains(old(self).order@[j]));
                    }
                    assert forall|k: TypeId| keys.contains(k) implies
                        self.indices@.contains_key(k) by {
                        if k != kind {
                            let j = choose|j: int| 0 <= j < keys.len() && keys[j] == k;
                            assert(old(self).order@.contains(old(self).order@[j]));
                        }
                    }
                    assert forall|k: TypeId| self.indices@.contains_key(k) implies
                        keys.contains(k) by {
                        if k == kind {
                            assert(keys[keys.len() - 1] == kind);
                        } else {
                            assert(old(self).indices@.contains_key(k));
                            let j = choose|j: int|
                                0 <= j < old(self).order@.len() && old(self).order@[j] == k;
                            assert(keys[j] == k);
                        }
                    }
                    self.order = Ghost(keys);
                    lemma_id_of_position(keys, i as int);
                }
                i
            },
        };
        let id = ComponentId(index);
        storages.init_component(id);
        id
    }

    /// Appends the record of a new id, which is the number of ids issued before.
    pub fn init_component_inner(components: &mut Vec<ComponentInfo>) -> (r: usize)
        requires
            old(components)@.len() < usize::MAX,
        ensures
            r == old(components)@.len(),
            final(components)@ == old(components)@.push(ComponentInfo { id: ComponentId(r) }),
    {
        let index = components.len();
        let info = ComponentInfo::new(ComponentId(index));
        components.push(info);
        index
    }
}

} // verus!
