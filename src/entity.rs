use std::collections::HashMap;

use vstd::prelude::*;

use crate::component::ComponentId;

verus! {

broadcast use vstd::std_specs::hash::group_hash_axioms;

/// An opaque handle that names one entity of a world.
#[derive(Clone, Copy, Debug, PartialEq, Eq, Hash, Structural)]
pub struct Entity(pub usize);

impl Entity {
    /// The number behind the handle; handles are issued in increasing order.
    pub fn index(&self) -> (r: usize)
        ensures
            r == self.0,
    {
        self.0
    }
}

impl From<usize> for Entity {
    fn from(value: usize) -> (r: Entity)
        ensures
            r.0 == value,
    {
        Entity(value)
    }
}

impl vstd::std_specs::convert::FromSpecImpl<usize> for Entity {
    open spec fn obeys_from_spec() -> bool {
        true
    }

    open spec fn from_spec(v: usize) -> Entity {
        Entity(v)
    }
}

/// The entity allocator, with the list of component ids each entity received.
pub struct Entities {
    entities: Vec<Entity>,
    components: HashMap<usize, Vec<ComponentId>>,
}

impl Entities {
    /// The handles issued so far, in order.
    pub closed spec fn issued(&self) -> Seq<Entity> {
        self.entities@
    }

    /// For each entity number, the component ids recorded for it.
    pub closed spec fn index(&self) -> Map<usize, Seq<ComponentId>> {
        Map::new(
            |e: usize| self.components@.contains_key(e),
            |e: usize| self.components@[e]@,
        )
    }

    pub closed spec fn wf(&self) -> bool {
        forall|i: int| 0 <= i < self.entities@.len() ==> #[trigger] self.entities@[i].0 == i
    }

    pub proof fn lemma_wf(&self)
        requires
            self.wf(),
        ensures
            forall|i: int| 0 <= i < self.issued().len() ==> #[trigger] self.issued()[i].0 == i,
    {
    }

    pub fn new() -> (r: Entities)
        ensures
            r.wf(),
            r.issued() == Seq::<Entity>::empty(),
            r.index() == Map::<usize, Seq<ComponentId>>::empty(),
    {
        let r = Entities { entities: Vec::new(), components: HashMap::new() };
        assert(r.index() =~= Map::<usize, Seq<ComponentId>>::empty());
        r
    }

    /// Issues the next handle: one above every handle issued before.
    pub fn allocate(&mut self) -> (r: Entity)
        requires
            old(self).wf(),
            old(self).issued().len() < usize::MAX,
        ensures
            final(self).wf(),
            r.0 == old(self).issued().len(),
            final(self).issued() == old(self).issued().push(r),
            final(self).index() == old(self).index(),
    {
        let entity: Entity = Entity::from(self.entities.len());
        self.entities.push(entity);
        entity
    }

    /// The component ids recorded for the entity, if any.
    pub fn components_of(&self, entity: Entity) -> (r: Option<&Vec<ComponentId>>)
        ensures
            r.is_some() == self.index().contains_key(entity.0),
            r.is_some() ==> r.unwrap()@ == self.index()[entity.0],
    {
        self.components.get(&entity.0)
    }

    /// Records that the entity received the given components, after those it
    /// already had.
    pub fn set_components(&mut self, entity: Entity, components_ids: Vec<ComponentId>)
        requires
            old(self).wf(),
        ensures
            final(self).wf(),
            final(self).issued() == old(self).issued(),
            final(self).index() == old(self).index().insert(
                entity.0,
                if old(self).index().contains_key(entity.0) {
                    old(self).index()[entity.0] + components_ids@
                } else {
                    components_ids@
                },
            ),
    {
        let ghost before = self.index();
        match self.components.remove(&entity.0) {
            Some(mut comps) => {
                let mut i: usize = 0;
                while i < components_ids.len()
                    invariant
                        0 <= i <= components_ids@.len(),
                        self.entities@ == old(self).entities@,
                        before.contains_key(entity.0),
                        comps@ == before[entity.0] + components_ids@.subrange(0, i as int),
                    decreases components_ids@.len() - i,
                {
                    comps.push(components_ids[i]);
                    i += 1;
                    assert(comps@ =~= before[entity.0] + components_ids@.subrange(0, i as int));
                }
                assert(components_ids@.subrange(0, i as int) =~= components_ids@);
                self.components.insert(entity.0, comps);
            },
            None => {
                self.components.insert(entity.0, components_ids);
            },
        }
        assert(self.index() =~= before.insert(
            entity.0,
            if before.contains_key(entity.0) {
                before[entity.0] + components_ids@
            } else {
                components_ids@
            },
        ));
    }
}

} // verus!
