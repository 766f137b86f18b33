//! Properties of the runtime that relate several operations, stated over the
//! same models that the operations' contracts use.
use std::any::TypeId;

use vstd::prelude::*;

use crate::bundle::ids_of;
use crate::bundle::keys_after;
use crate::bundle::kinds_of;
use crate::bundle::lemma_keys_after;
use crate::bundle::lemma_table_after;
use crate::bundle::table_after;
use crate::component::id_of;
use crate::component::lemma_id_of_position;
use crate::component::registered;
use crate::component::Component;
use crate::entity::Entity;
use crate::query::access_kinds;
use crate::query::conflict;
use crate::query::fetch_leaf;
use crate::query::fetched;
use crate::query::resolve;
use crate::query::Access;
use crate::query::Item;
use crate::query::Resolved;
use crate::storage::lookup;
use crate::storage::Table;
use crate::storage::Tagged;
use crate::world::with_buckets;
use crate::world::World;

verus! {

/// Every type a query shape names is among its kinds, and there are no more
/// kinds than leaves.
proof fn lemma_access_kinds(leaves: Seq<Access>)
    ensures
        access_kinds(leaves).len() <= leaves.len(),
        forall|i: int, k: TypeId|
            0 <= i < leaves.len() && (leaves[i] == Access::Read(k) || leaves[i] == Access::Write(k))
                ==> #[trigger] access_kinds(leaves).contains(k) && #[trigger] leaves[i] == leaves[i],
    decreases leaves.len(),
{
    if leaves.len() > 0 {
        let front = leaves.drop_last();
        lemma_access_kinds(front);
        let ks = access_kinds(leaves);
        assert forall|i: int, k: TypeId|
            0 <= i < leaves.len() && (leaves[i] == Access::Read(k) || leaves[i] == Access::Write(k))
                implies #[trigger] access_kinds(leaves).contains(k) && #[trigger] leaves[i]
            == leaves[i] by {
            if i < leaves.len() - 1 {
                assert(front[i] == leaves[i]);
                let fk = access_kinds(front);
                assert(fk.contains(k));
                let p = choose|p: int| 0 <= p < fk.len() && fk[p] == k;
                assert(ks[p] == k);
            } else {
                assert(ks[ks.len() - 1] == k);
            }
        }
    }
}

/// In a registry that holds type `kind`, its id points back at it.
proof fn lemma_id_points_back(keys: Seq<TypeId>, kind: TypeId)
    requires
        keys.contains(kind),
    ensures
        0 <= id_of(keys, kind) < keys.len(),
        keys[id_of(keys, kind)] == kind,
{
}

/// Registering a type a second time changes nothing: the registry, the id and
/// the buckets stay as the first registration left them, which added at most
/// one type and one bucket.
pub proof fn law_registration_idempotent<V: Component>(w: World<V>, kind: TypeId)
    requires
        w.wf(),
    ensures
        ({
            let k1 = registered(w.keys(), kind);
            let t1 = with_buckets(w.table(), w.keys().len() as int, k1.len() as int);
            let k2 = registered(k1, kind);
            &&& k2 == k1
            &&& id_of(k2, kind) == id_of(k1, kind)
            &&& with_buckets(t1, k1.len() as int, k2.len() as int) == t1
            &&& k1.len() <= w.keys().len() + 1
        }),
{
    let k1 = registered(w.keys(), kind);
    if !w.keys().contains(kind) {
        assert(k1[k1.len() - 1] == kind);
    }
    assert(k1.contains(kind));
    let t1 = with_buckets(w.table(), w.keys().len() as int, k1.len() as int);
    assert(with_buckets(t1, k1.len() as int, k1.len() as int) =~= t1);
}

/// Whatever types are registered, in whatever order and with whatever repeats,
/// starting from an empty registry: each type gets one id, different types get
/// different ids, and the ids issued are exactly `0..N`, where `N` is the number
/// of distinct types.
pub proof fn law_ids_dense(kinds: Seq<TypeId>)
    ensures
        ({
            let keys = keys_after(Seq::empty(), kinds);
            &&& keys.len() == kinds.to_set().len()
            &&& Set::new(
                |i: int| exists|j: int| 0 <= j < kinds.len() && id_of(keys, kinds[j]) == i,
            ) == Set::new(|i: int| 0 <= i < keys.len())
            &&& forall|a: int, b: int|
                0 <= a < kinds.len() && 0 <= b < kinds.len() ==> (id_of(keys, #[trigger] kinds[a])
                    == id_of(keys, #[trigger] kinds[b]) <==> kinds[a] == kinds[b])
        }),
{
    let keys = keys_after(Seq::empty(), kinds);
    lemma_keys_after(Seq::empty(), kinds);
    assert(Seq::<TypeId>::empty().no_duplicates());
    keys.unique_seq_to_set();
    assert forall|k: TypeId| keys.to_set().contains(k) <==> kinds.to_set().contains(k) by {
        if keys.to_set().contains(k) {
            let p = choose|p: int| 0 <= p < keys.len() && keys[p] == k;
            let j = choose|j: int| 0 <= j < kinds.len() && kinds[j] == keys[p];
            assert(kinds.contains(k));
        }
        if kinds.to_set().contains(k) {
            let j = choose|j: int| 0 <= j < kinds.len() && kinds[j] == k;
            assert(keys.contains(kinds[j]));
        }
    }
    assert(keys.to_set() =~= kinds.to_set());
    let issued = Set::new(
        |i: int| exists|j: int| 0 <= j < kinds.len() && id_of(keys, kinds[j]) == i,
    );
    assert forall|i: int| issued.contains(i) <==> 0 <= i < keys.len() by {
        if issued.contains(i) {
            let j = choose|j: int| 0 <= j < kinds.len() && id_of(keys, kinds[j]) == i;
            assert(keys.contains(kinds[j]));
        }
        if 0 <= i < keys.len() {
            let j = choose|j: int| 0 <= j < kinds.len() && kinds[j] == keys[i];
            lemma_id_of_position(keys, i);
        }
    }
    assert(issued =~= Set::new(|i: int| 0 <= i < keys.len()));
    assert forall|a: int, b: int| 0 <= a < kinds.len() && 0 <= b < kinds.len() implies (id_of(
        keys,
        #[trigger] kinds[a],
    ) == id_of(keys, #[trigger] kinds[b]) <==> kinds[a] == kinds[b]) by {
        assert(keys.contains(kinds[a]));
        assert(keys.contains(kinds[b]));
        lemma_id_points_back(keys, kinds[a]);
        lemma_id_points_back(keys, kinds[b]);
    }
}

/// Registering the types of one sequence and then those of another (as two
/// spawns or two queries do) leaves the registry that registering them all in
/// one sequence leaves; so the ids issued over many calls are those of one
/// sequence of registrations.
pub proof fn law_registrations_compose(keys: Seq<TypeId>, first: Seq<TypeId>, second: Seq<TypeId>)
    ensures
        keys_after(keys_after(keys, first), second) == keys_after(keys, first + second),
    decreases second.len(),
{
    if second.len() == 0 {
        assert(first + second =~= first);
    } else {
        law_registrations_compose(keys, first, second.drop_last());
        assert((first + second).drop_last() =~= first + second.drop_last());
        assert((first + second).last() == second.last());
    }
}

/// Where a bundle holds several values of one type, the new entity keeps the
/// first of them: the value stored for type `kind` is that of the first part of
/// that type.
pub proof fn law_first_write_wins<V: Component>(w: World<V>, parts: Seq<Tagged<V>>, j: int)
    requires
        w.wf(),
        w.entities().len() < usize::MAX,
        w.keys().len() + parts.len() < usize::MAX,
        0 <= j < parts.len(),
        forall|i: int| 0 <= i < j ==> parts[i].kind != parts[j].kind,
    ensures
        ({
            let e = w.entities().len() as usize;
            let keys1 = keys_after(w.keys(), kinds_of(parts));
            let t1 = table_after(w.table(), e, parts, ids_of(keys1, parts));
            lookup(t1, id_of(keys1, parts[j].kind) as usize, e, parts[j].kind) == Some(
                parts[j].value,
            )
        }),
{
    let e = w.entities().len() as usize;
    let kinds = kinds_of(parts);
    let keys1 = keys_after(w.keys(), kinds);
    let ids = ids_of(keys1, parts);
    w.lemma_wf();
    lemma_keys_after(w.keys(), kinds);
    assert forall|i: int| 0 <= i < j implies ids[i] != ids[j] by {
        assert(kinds[i] == parts[i].kind && kinds[j] == parts[j].kind);
        assert(keys1.contains(kinds[i]));
        assert(keys1.contains(kinds[j]));
        lemma_id_points_back(keys1, parts[i].kind);
        lemma_id_points_back(keys1, parts[j].kind);
    }
    assert forall|c: usize| w.table().contains_key(c) implies !w.table()[c].contains_key(e) by {
        if w.table()[c].contains_key(e) {
            assert(e < w.entities().len());
        }
    }
    lemma_table_after(w.table(), e, parts, ids);
    assert(ids[j].0 == id_of(keys1, parts[j].kind) as usize);
    assert(kinds[j] == parts[j].kind);
}

/// Spawning an entity with a bundle whose parts have distinct types, then
/// resolving any query shape: every leaf that reads or writes the type of a part
/// yields that part's value for the new entity.
pub proof fn law_spawn_round_trip<V: Component>(
    w: World<V>,
    parts: Seq<Tagged<V>>,
    leaves: Seq<Access>,
    i: int,
    j: int,
)
    requires
        w.wf(),
        w.entities().len() < usize::MAX,
        w.keys().len() + parts.len() + leaves.len() < usize::MAX,
        kinds_of(parts).no_duplicates(),
        0 <= i < leaves.len(),
        0 <= j < parts.len(),
        leaves[i] == Access::Read(parts[j].kind) || leaves[i] == Access::Write(parts[j].kind),
    ensures
        ({
            let e = Entity(w.entities().len() as usize);
            let keys1 = keys_after(w.keys(), kinds_of(parts));
            let t1 = table_after(w.table(), e.0, parts, ids_of(keys1, parts));
            let keys2 = keys_after(keys1, access_kinds(leaves));
            let t2 = with_buckets(t1, keys1.len() as int, keys2.len() as int);
            fetch_leaf(resolve(leaves[i], keys2), t2, e) == Item::<V>::Component(
                Some(parts[j].value),
            )
        }),
{
    let e = Entity(w.entities().len() as usize);
    let kinds = kinds_of(parts);
    let keys1 = keys_after(w.keys(), kinds);
    let ids = ids_of(keys1, parts);
    let t1 = table_after(w.table(), e.0, parts, ids);
    let keys2 = keys_after(keys1, access_kinds(leaves));
    let k = parts[j].kind;
    assert forall|x: int| 0 <= x < j implies parts[x].kind != parts[j].kind by {
        assert(kinds[x] == parts[x].kind && kinds[j] == parts[j].kind);
    }
    law_first_write_wins(w, parts, j);
    w.lemma_wf();
    lemma_keys_after(w.keys(), kinds);
    lemma_keys_after(keys1, access_kinds(leaves));
    lemma_access_kinds(leaves);
    assert(kinds[j] == k);
    assert(keys1.contains(k));
    lemma_id_points_back(keys1, k);
    let p = id_of(keys1, k);
    assert(keys2.subrange(0, keys1.len() as int)[p] == keys1[p]);
    lemma_id_of_position(keys2, p);
    lemma_table_after(w.table(), e.0, parts, ids);
    assert(t1.contains_key(ids[j].0));
}

/// A query that names a type the world has never registered registers it with
/// an empty bucket: every leaf of that type yields nothing, for every entity.
pub proof fn law_unregistered_reads_none<V: Component>(
    w: World<V>,
    leaves: Seq<Access>,
    i: int,
    kind: TypeId,
    e: Entity,
)
    requires
        w.wf(),
        w.keys().len() + leaves.len() < usize::MAX,
        !w.keys().contains(kind),
        0 <= i < leaves.len(),
        leaves[i] == Access::Read(kind) || leaves[i] == Access::Write(kind),
    ensures
        ({
            let keys2 = keys_after(w.keys(), access_kinds(leaves));
            let t2 = with_buckets(w.table(), w.keys().len() as int, keys2.len() as int);
            fetch_leaf(resolve(leaves[i], keys2), t2, e) == Item::<V>::Component(None)
        }),
{
    let keys2 = keys_after(w.keys(), access_kinds(leaves));
    w.lemma_wf();
    lemma_access_kinds(leaves);
    lemma_keys_after(w.keys(), access_kinds(leaves));
    assert(access_kinds(leaves).contains(kind));
    let ak = access_kinds(leaves);
    let q = choose|q: int| 0 <= q < ak.len() && ak[q] == kind;
    assert(keys2.contains(ak[q]));
    lemma_id_points_back(keys2, kind);
    let p = id_of(keys2, kind);
    if p < w.keys().len() {
        assert(keys2.subrange(0, w.keys().len() as int)[p] == w.keys()[p]);
        assert(w.keys().contains(kind));
    }
    assert(!w.table().contains_key(p as usize));
}

/// A leaf whose component the entity does not hold yields nothing.
pub proof fn law_absent_reads_none<V>(t: Table<V>, leaf: Resolved, e: Entity)
    requires
        leaf !is Entity,
        match leaf {
            Resolved::Read(_, c) => !(t.contains_key(c.0) && t[c.0].contains_key(e.0)),
            Resolved::Write(_, c) => !(t.contains_key(c.0) && t[c.0].contains_key(e.0)),
            Resolved::Entity => true,
        },
    ensures
        fetch_leaf(leaf, t, e) == Item::<V>::Component(None),
{
}

/// A query shape without written leaves never fails, and its leaves are fetched
/// each on its own: the item at each position is what that leaf alone yields.
pub proof fn law_composite_independence<V>(state: Seq<Resolved>, t: Table<V>, e: Entity)
    requires
        forall|i: int| 0 <= i < state.len() ==> !(#[trigger] state[i] is Write),
    ensures
        !conflict(state, t, e.0),
        fetched(state, t, e).len() == state.len(),
        forall|i: int|
            0 <= i < state.len() ==> #[trigger] fetched(state, t, e)[i] == fetch_leaf(state[i], t, e),
{
}

/// Entity handles are issued in strictly increasing order, so none is issued twice.
pub proof fn law_entities_increase<V: Component>(w: World<V>)
    requires
        w.wf(),
    ensures
        forall|a: int, b: int|
            0 <= a < b < w.entities().len() ==> #[trigger] w.entities()[a].0 < #[trigger] w.entities()[b].0,
{
    w.lemma_wf();
}

} // verus!
