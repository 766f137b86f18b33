use std::any::TypeId;

use vstd::prelude::*;

use crate::component::id_of;
use crate::component::registered;
use crate::component::Component;
use crate::component::ComponentId;
use crate::component::Components;
use crate::entity::Entity;
use crate::storage::with_value;
use crate::storage::Storages;
use crate::storage::Table;
use crate::storage::Tagged;

verus! {

/// The registry after the given types are registered one after another.
pub open spec fn keys_after(keys: Seq<TypeId>, kinds: Seq<TypeId>) -> Seq<TypeId>
    decreases kinds.len(),
{
    if kinds.len() == 0 {
        keys
    } else {
        registered(keys_after(keys, kinds.drop_last()), kinds.last())
    }
}

/// The types of the parts of a bundle, in order.
pub open spec fn kinds_of<V>(parts: Seq<Tagged<V>>) -> Seq<TypeId> {
    parts.map_values(|p: Tagged<V>| p.kind)
}

/// The ids that the registry `keys` gives the parts of a bundle, in order.
pub open spec fn ids_of<V>(keys: Seq<TypeId>, parts: Seq<Tagged<V>>) -> Seq<ComponentId> {
    Seq::new(parts.len(), |j: int| ComponentId(id_of(keys, parts[j].kind) as usize))
}

/// The table after each part is offered to entity `e` under its id, left to right.
pub open spec fn table_after<V>(t: Table<V>, e: usize, parts: Seq<Tagged<V>>, ids: Seq<ComponentId>) -> Table<V>
    decreases parts.len(),
{
    if parts.len() == 0 || ids.len() != parts.len() {
        t
    } else {
        with_value(
            table_after(t, e, parts.drop_last(), ids.drop_last()),
            ids.last().0,
            e,
            parts.last(),
        )
    }
}

/// Registering types keeps the registry as a prefix, registers every one of
/// them, and adds at most one entry per type.
pub proof fn lemma_keys_after(keys: Seq<TypeId>, kinds: Seq<TypeId>)
    ensures
        keys_after(keys, kinds).len() <= keys.len() + kinds.len(),
        keys.len() <= keys_after(keys, kinds).len(),
        keys_after(keys, kinds).subrange(0, keys.len() as int) == keys,
        forall|j: int| 0 <= j < kinds.len() ==> keys_after(keys, kinds).contains(#[trigger] kinds[j]),
        keys.no_duplicates() ==> keys_after(keys, kinds).no_duplicates(),
        forall|p: int|
            keys.len() <= p < keys_after(keys, kinds).len() ==> exists|j: int|
                0 <= j < kinds.len() && kinds[j] == #[trigger] keys_after(keys, kinds)[p],
    decreases kinds.len(),
{
    if kinds.len() == 0 {
        assert(keys.subrange(0, keys.len() as int) =~= keys);
    } else {
        let prev = kinds.drop_last();
        lemma_keys_after(keys, prev);
        let before = keys_after(keys, prev);
        let after = keys_after(keys, kinds);
        let k = kinds.last();
        if !before.contains(k) {
            assert(after[after.len() - 1] == k);
            assert(after.subrange(0, keys.len() as int) =~= before.subrange(0, keys.len() as int));
        }
        assert forall|p: int| keys.len() <= p < after.len() implies exists|j: int|
            0 <= j < kinds.len() && kinds[j] == #[trigger] after[p] by {
            if p < before.len() {
                let j = choose|j: int| 0 <= j < prev.len() && prev[j] == before[p];
                assert(kinds[j] == prev[j]);
            } else {
                assert(kinds[kinds.len() - 1] == after[p]);
            }
        }
        assert forall|j: int| 0 <= j < kinds.len() implies after.contains(#[trigger] kinds[j]) by {
            if j < kinds.len() - 1 {
                assert(prev[j] == kinds[j]);
                assert(before.contains(prev[j]));
                let p = choose|p: int| 0 <= p < before.len() && before[p] == kinds[j];
                assert(after[p] == kinds[j]);
            } else if before.contains(k) {
            } else {
                assert(after[after.len() - 1] == k);
            }
        }
    }
}

/// Where the slots of the table after a spawn come from: a slot that was
/// already there keeps its value; any other belongs to the new entity and holds
/// one of the parts, under that part's id.
pub proof fn lemma_table_after<V>(t: Table<V>, e: usize, parts: Seq<Tagged<V>>, ids: Seq<ComponentId>)
    requires
        ids.len() == parts.len(),
    ensures
        forall|j: int|
            0 <= j < ids.len() && (forall|c: usize| t.contains_key(c) ==> !t[c].contains_key(e)) && (
            forall|i: int| 0 <= i < j ==> ids[i] != ids[j]) ==> {
                let r = table_after(t, e, parts, ids);
                &&& r[#[trigger] ids[j].0].contains_key(e)
                &&& r[ids[j].0][e] == parts[j]
            },
        forall|c: usize| t.contains_key(c) ==> #[trigger] table_after(t, e, parts, ids).contains_key(c),
        forall|j: int| 0 <= j < ids.len() ==> table_after(t, e, parts, ids).contains_key(#[trigger] ids[j].0),
        forall|c: usize, x: usize|
            t.contains_key(c) && t[c].contains_key(x) ==> {
                let r = table_after(t, e, parts, ids);
                &&& r.contains_key(c)
                &&& r[c].contains_key(x)
                &&& r[c][x] == t[c][x]
            },
        forall|c: usize|
            #[trigger] table_after(t, e, parts, ids).contains_key(c) ==> t.contains_key(c) || exists|
                j: int,
            | 0 <= j < ids.len() && ids[j].0 == c,
        forall|c: usize, x: usize|
            table_after(t, e, parts, ids).contains_key(c) && #[trigger] table_after(
                t,
                e,
                parts,
                ids,
            )[c].contains_key(x) && !(t.contains_key(c) && t[c].contains_key(x)) ==> x == e
                && exists|j: int|
                0 <= j < ids.len() && ids[j].0 == c && table_after(t, e, parts, ids)[c][x]
                    == parts[j],
    decreases parts.len(),
{
    if parts.len() > 0 {
        let pp = parts.drop_last();
        let pi = ids.drop_last();
        lemma_table_after(t, e, pp, pi);
        let n = parts.len() - 1;
        let prev = table_after(t, e, pp, pi);
        assert forall|j: int|
            0 <= j < ids.len() && (forall|c: usize| t.contains_key(c) ==> !t[c].contains_key(e)) && (
            forall|i: int| 0 <= i < j ==> ids[i] != ids[j]) implies {
                let r = table_after(t, e, parts, ids);
                &&& r[#[trigger] ids[j].0].contains_key(e)
                &&& r[ids[j].0][e] == parts[j]
            } by {
            if j < n {
                assert(pi[j] == ids[j]);
                assert(forall|i: int| 0 <= i < j ==> pi[i] == ids[i]);
                assert(prev[pi[j].0].contains_key(e));
            } else {
                let c = ids[j].0;
                if prev.contains_key(c) && prev[c].contains_key(e) {
                    if !(t.contains_key(c) && t[c].contains_key(e)) {
                        let i = choose|i: int| 0 <= i < pi.len() && pi[i].0 == c && prev[c][e] == pp[i];
                        assert(ids[i] == ids[j]);
                    }
                }
            }
        }
        assert forall|c: usize| t.contains_key(c) implies #[trigger] table_after(t, e, parts, ids).contains_key(c) by {
            assert(table_after(t, e, pp, pi).contains_key(c));
        }
        assert forall|j: int| 0 <= j < ids.len() implies table_after(t, e, parts, ids).contains_key(#[trigger] ids[j].0) by {
            if j < n {
                assert(pi[j] == ids[j]);
            }
        }
        assert forall|c: usize|
            #[trigger] table_after(t, e, parts, ids).contains_key(c) implies t.contains_key(c)
            || exists|j: int| 0 <= j < ids.len() && ids[j].0 == c by {
            if table_after(t, e, pp, pi).contains_key(c) {
                if !t.contains_key(c) {
                    let j = choose|j: int| 0 <= j < pi.len() && pi[j].0 == c;
                    assert(ids[j].0 == c);
                }
            } else {
                assert(ids[n].0 == c);
            }
        }
        assert forall|c: usize, x: usize|
            table_after(t, e, parts, ids).contains_key(c) && #[trigger] table_after(
                t,
                e,
                parts,
                ids,
            )[c].contains_key(x) && !(t.contains_key(c) && t[c].contains_key(x)) implies x == e
            && exists|j: int|
                0 <= j < ids.len() && ids[j].0 == c && table_after(t, e, parts, ids)[c][x]
                    == parts[j] by {
            let prev = table_after(t, e, pp, pi);
            if prev.contains_key(c) && prev[c].contains_key(x) {
                let j = choose|j: int|
                    0 <= j < pi.len() && pi[j].0 == c && prev[c][x] == pp[j];
                assert(ids[j].0 == c && parts[j] == pp[j]);
            } else {
                assert(ids[n].0 == c && parts[n] == parts.last());
            }
        }
    }
}

/// A set of component values attached together to one new entity.
pub struct Bundle<V> {
    parts: Vec<Tagged<V>>,
}

impl<V: Component> Bundle<V> {
    /// The parts, in the order in which they are attached.
    pub closed spec fn view(&self) -> Seq<Tagged<V>> {
        self.parts@
    }

    pub fn new() -> (r: Bundle<V>)
        ensures
            r@ == Seq::<Tagged<V>>::empty(),
    {
        Bundle { parts: Vec::new() }
    }

    /// The bundle with one more value, of type `kind`, after the others.
    pub fn with(self, kind: TypeId, value: V) -> (r: Bundle<V>)
        ensures
            r@ == self@.push(Tagged { kind, value }),
    {
        let mut parts = self.parts;
        parts.push(Tagged { kind, value });
        Bundle { parts }
    }

    pub fn len(&self) -> (r: usize)
        ensures
            r == self@.len(),
    {
        self.parts.len()
    }

    /// Registers the type of each part, stores the part for the entity under
    /// its id and reports the id, left to right.
    pub fn components_ids(
        &self,
        entity: Entity,
        components: &mut Components,
        storages: &mut Storages<V>,
        ids: &mut Vec<ComponentId>,
    )
        requires
            old(components).wf(),
            old(components)@.len() + self@.len() < usize::MAX,
        ensures
            final(components).wf(),
            final(components)@ == keys_after(old(components)@, kinds_of(self@)),
            final(ids)@ == old(ids)@ + ids_of(final(components)@, self@),
            final(storages).view() == table_after(
                old(storages).view(),
                entity.0,
                self@,
                ids_of(final(components)@, self@),
            ),
    {
        let ghost keys0 = components@;
        let ghost t0 = storages.view();
        let ghost n0 = ids@.len();
        let mut i: usize = 0;
        while i < self.parts.len()
            invariant
                0 <= i <= self@.len(),
                components.wf(),
                keys0.len() + self@.len() < usize::MAX,
                components@.len() <= keys0.len() + i,
                components@ == keys_after(keys0, kinds_of(self@).subrange(0, i as int)),
                ids@.len() == n0 + i,
                ids@.subrange(0, n0 as int) == old(ids)@,
                n0 == old(ids)@.len(),
                forall|j: int|
                    0 <= j < i ==> {
                        let c = #[trigger] ids@[n0 + j].0;
                        &&& c < components@.len()
                        &&& components@[c as int] == self@[j].kind
                    },
                storages.view() == table_after(
                    t0,
                    entity.0,
                    self@.subrange(0, i as int),
                    ids@.subrange(n0 as int, n0 + i),
                ),
            decreases self@.len() - i,
        {
            let part = &self.parts[i];
            let ghost keys_before = components@;
            let ghost t_before = storages.view();
            let ghost ids_before = ids@;
            let id = components.init_component(storages, part.kind);
            proof {
                components.lemma_wf_no_duplicates();
                let keys = components@;
                if !keys_before.contains(part.kind) {
                    assert(keys[keys.len() - 1] == part.kind);
                }
                assert(keys[id.0 as int] == part.kind) by {
                    assert(keys.contains(part.kind));
                }
            }
            ids.push(id);
            storages.push_component(entity, id, Tagged { kind: part.kind, value: part.value });
            proof {
                let c = id.0;
                let e = entity.0;
                let v = Tagged { kind: part.kind, value: part.value };
                assert(with_value(crate::storage::with_bucket(t_before, c), c, e, v) =~= with_value(
                    t_before,
                    c,
                    e,
                    v,
                ));
                assert(self@.subrange(0, i + 1).drop_last() =~= self@.subrange(0, i as int));
                assert(ids@.subrange(n0 as int, n0 + i + 1).drop_last() =~= ids@.subrange(
                    n0 as int,
                    n0 + i,
                ));
                assert(kinds_of(self@).subrange(0, i + 1).drop_last() =~= kinds_of(
                    self@,
                ).subrange(0, i as int));
                assert(ids@.subrange(0, n0 as int) =~= old(ids)@);
                assert(ids@.subrange(n0 as int, n0 + i) =~= ids_before.subrange(n0 as int, n0 + i));
                assert(self@.subrange(0, i + 1).last() == v);
                assert(ids@.subrange(n0 as int, n0 + i + 1).last() == id);
            }
            i += 1;
        }
        proof {
            components.lemma_wf_no_duplicates();
            let keys = components@;
            let fresh = ids@.subrange(n0 as int, n0 + i);
            assert forall|j: int| 0 <= j < self@.len() implies fresh[j] == ids_of(keys, self@)[j] by {
                assert(ids@[n0 + j].0 < keys.len());
                crate::component::lemma_id_of_position(keys, ids@[n0 + j].0 as int);
            }
            assert(fresh =~= ids_of(keys, self@));
            assert(self@.subrange(0, i as int) =~= self@);
            assert(kinds_of(self@).subrange(0, i as int) =~= kinds_of(self@));
            assert(ids@ =~= old(ids)@ + ids_of(keys, self@));
        }
    }
}

} // verus!
