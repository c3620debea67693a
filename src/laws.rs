use vstd::prelude::*;

use crate::archetype::{ArchetypeId, ComponentId, EntityId};
use crate::ecs::ECS;

verus! {

proof fn lemma_attached_prefix(
    worlds: Seq<ECS>,
    e: EntityId,
    kinds: Seq<ComponentId>,
    values: Seq<Seq<u8>>,
    n: int,
)
    requires
        worlds.len() == kinds.len() + 1,
        values.len() == kinds.len(),
        worlds[0].entity_ids().contains(e),
        worlds[0].components(e) == Map::<ComponentId, Seq<u8>>::empty(),
        forall|i: int|
            0 <= i < kinds.len() ==> ECS::added(
                #[trigger] worlds[i],
                worlds[i + 1],
                e,
                kinds[i],
                values[i],
            ),
        0 <= n <= kinds.len(),
    ensures
        worlds[n].entity_ids().contains(e),
        worlds[n].components(e).dom() == kinds.take(n).to_set(),
    decreases n,
{
    if n == 0 {
        assert(kinds.take(0).to_set() =~= Set::<ComponentId>::empty());
        assert(worlds[0].components(e).dom() =~= Set::<ComponentId>::empty());
    } else {
        lemma_attached_prefix(worlds, e, kinds, values, n - 1);
        assert(ECS::added(worlds[n - 1], worlds[n], e, kinds[n - 1], values[n - 1]));
        assert(kinds.take(n) =~= kinds.take(n - 1).push(kinds[n - 1]));
        kinds.take(n - 1).lemma_push_to_set_commute(kinds[n - 1]);
        assert(worlds[n].components(e).dom() =~= worlds[n - 1].components(e).dom().insert(
            kinds[n - 1],
        ));
    }
}

/// Attaching components one after another to an entity that held none, in any order and
/// with any repetition, leaves it in the archetype whose signature is exactly the set of
/// the attached kinds, each listed once.
pub proof fn lemma_signature_is_attached_kinds(
    worlds: Seq<ECS>,
    e: EntityId,
    kinds: Seq<ComponentId>,
    values: Seq<Seq<u8>>,
)
    requires
        worlds.len() == kinds.len() + 1,
        values.len() == kinds.len(),
        forall|i: int| 0 <= i < worlds.len() ==> (#[trigger] worlds[i]).wf(),
        worlds[0].entity_ids().contains(e),
        worlds[0].components(e) == Map::<ComponentId, Seq<u8>>::empty(),
        forall|i: int|
            0 <= i < kinds.len() ==> ECS::added(
                #[trigger] worlds[i],
                worlds[i + 1],
                e,
                kinds[i],
                values[i],
            ),
    ensures
        worlds.last().signature(worlds.last().archetype_of(e) as int).to_set() == kinds.to_set(),
        worlds.last().signature(worlds.last().archetype_of(e) as int).no_duplicates(),
        worlds.last().signature(worlds.last().archetype_of(e) as int).len()
            == kinds.to_set().len(),
{
    let n = kinds.len() as int;
    lemma_attached_prefix(worlds, e, kinds, values, n);
    assert(kinds.take(n) =~= kinds);
    let w = worlds[n];
    assert(w.wf());
    w.lemma_wf();
    let a = w.archetype_of(e) as int;
    assert(w.archetype(a).wf());
    w.signature(a).unique_seq_to_set();
}

/// Attaching a second kind moves the entity to another archetype, and the bytes of the
/// first kind come along unchanged.
pub proof fn lemma_component_survives_migration(
    w0: ECS,
    w1: ECS,
    w2: ECS,
    e: EntityId,
    a: ComponentId,
    v: Seq<u8>,
    b: ComponentId,
    u: Seq<u8>,
)
    requires
        ECS::added(w0, w1, e, a, v),
        ECS::added(w1, w2, e, b, u),
        a != b,
    ensures
        w2.components(e).contains_key(a),
        w2.components(e)[a] == v,
{
}

/// Looking up the archetype of one set of kinds twice, with the kinds listed in any order
/// or repeated, gives the same archetype, and the second lookup creates none.
pub proof fn lemma_get_or_create_idempotent(
    w0: ECS,
    w1: ECS,
    w2: ECS,
    s1: Seq<ComponentId>,
    s2: Seq<ComponentId>,
    id1: ArchetypeId,
    id2: ArchetypeId,
)
    requires
        w0.wf(),
        w1.wf(),
        w2.wf(),
        ECS::resolved(w0, w1, s1.to_set(), id1),
        ECS::resolved(w1, w2, s2.to_set(), id2),
        s1.to_set() == s2.to_set(),
    ensures
        id1 == id2,
        w2.archetype_count() == w1.archetype_count(),
{
    assert(w1.signature(id1 as int).to_set() == s1.to_set());
    assert(w1.has_signature(s2.to_set()));
    assert(w2.archetype(id1 as int) == w1.archetype(id1 as int));
    assert(w2.signature(id1 as int).to_set() == w2.signature(id2 as int).to_set());
    w2.lemma_wf();
}

/// Two entities of one archetype that gain the same kind end in the same archetype, at
/// most one archetype is created for the two transitions, and the edge cache leads from
/// the first archetype to the second and back.
pub proof fn lemma_same_transition_same_target(
    w0: ECS,
    w1: ECS,
    w2: ECS,
    e1: EntityId,
    e2: EntityId,
    kind: ComponentId,
    b1: Seq<u8>,
    b2: Seq<u8>,
)
    requires
        w0.wf(),
        w1.wf(),
        w2.wf(),
        e1 != e2,
        w0.entity_ids().contains(e1),
        w0.entity_ids().contains(e2),
        w0.archetype_of(e1) == w0.archetype_of(e2),
        !w0.components(e1).contains_key(kind),
        ECS::added(w0, w1, e1, kind, b1),
        ECS::added(w1, w2, e2, kind, b2),
    ensures
        w2.archetype_of(e1) == w2.archetype_of(e2),
        w2.archetype_count() <= w0.archetype_count() + 1,
        w2.archetype(w0.archetype_of(e1) as int).add_edge(kind) == Some(w2.archetype_of(e1)),
        w2.archetype(w2.archetype_of(e1) as int).remove_edge(kind) == Some(w0.archetype_of(e1)),
{
    w0.lemma_wf();
    let before = w0.components(e1).dom();
    assert(w0.components(e2).dom() == before);
    assert(w1.archetype_of(e2) == w0.archetype_of(e2) && w1.components(e2) == w0.components(e2));
    let a1 = w1.archetype_of(e1) as int;
    assert(w1.signature(a1).to_set() == before.insert(kind));
    assert(w1.has_signature(w1.components(e2).dom().insert(kind)));
    assert(w2.archetype_count() == w1.archetype_count());
    assert(w2.archetype_of(e1) == w1.archetype_of(e1));
    assert(w2.signature(a1) == w1.signature(a1));
    w2.lemma_wf();
    assert(w2.signature(w2.archetype_of(e2) as int).to_set() == before.insert(kind));
    assert(!before.contains(kind));
    assert(!w1.components(e2).contains_key(kind));
}

/// Detaching a kind just attached to an entity that did not hold it gives the entity back
/// its former components and its former archetype.
pub proof fn lemma_detach_undoes_attach(
    w0: ECS,
    w1: ECS,
    w2: ECS,
    e: EntityId,
    kind: ComponentId,
    v: Seq<u8>,
)
    requires
        w0.wf(),
        w2.wf(),
        w0.entity_ids().contains(e),
        !w0.components(e).contains_key(kind),
        ECS::added(w0, w1, e, kind, v),
        ECS::detached(w1, w2, e, kind),
    ensures
        w2.components(e) == w0.components(e),
        w2.archetype_of(e) == w0.archetype_of(e),
{
    assert(w2.components(e) =~= w0.components(e));
    w0.lemma_wf();
    let a = w0.archetype_of(e) as int;
    assert(w1.signature(a) == w0.signature(a));
    assert(w2.signature(a) == w1.signature(a));
    w2.lemma_wf();
    assert(w2.signature(w2.archetype_of(e) as int).to_set() == w2.signature(a).to_set());
}

} // verus!
